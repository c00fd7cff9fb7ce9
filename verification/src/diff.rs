//! Diffs: files, hunks and lines, read from unified patches or computed from
//! two texts.

use crate::number::{decimal, push_decimal};
use crate::text::{
    begins, chars_of, lemma_begins_first, lemma_prefix, lines, lines_of, lossy, lossy_text, push_text,
    same_text, slices, starts_with, string_of, strip_leading, text_in, trim, trimmed, without_leading,
    words, words_of,
};
use similar::{Change, ChangeTag, TextDiff};
use vstd::prelude::*;
use vstd::slice::slice_subrange;

verus! {

// ---- Files, hunks and lines --------------------------------------------------

#[derive(Debug, Clone, Copy, PartialEq, Eq, Structural)]
pub enum DiffLineType {
    Add,
    Remove,
    Context,
}

#[derive(Debug, Clone)]
pub struct DiffLine {
    pub kind: DiffLineType,
    pub old_line: Option<usize>,
    pub new_line: Option<usize>,
    pub content: String,
}

#[derive(Debug, Clone)]
pub struct Hunk {
    pub header: String,
    pub lines: Vec<DiffLine>,
}

#[derive(Debug, Clone)]
pub struct FileDiff {
    pub path: String,
    pub old_path: Option<String>,
    pub hunks: Vec<Hunk>,
}

/// What a line of a diff holds.
#[verifier::ext_equal]
pub struct LineModel {
    pub kind: DiffLineType,
    pub old_line: Option<usize>,
    pub new_line: Option<usize>,
    pub content: Seq<char>,
}

/// What a hunk holds.
#[verifier::ext_equal]
pub struct HunkModel {
    pub header: Seq<char>,
    pub lines: Seq<LineModel>,
}

/// What the diff of a file holds.
#[verifier::ext_equal]
pub struct FileModel {
    pub path: Seq<char>,
    pub old_path: Option<Seq<char>>,
    pub hunks: Seq<HunkModel>,
}

impl View for DiffLine {
    type V = LineModel;

    open spec fn view(&self) -> LineModel {
        LineModel {
            kind: self.kind,
            old_line: self.old_line,
            new_line: self.new_line,
            content: self.content@,
        }
    }
}

/// What the lines of a list hold.
pub open spec fn line_models(v: Seq<DiffLine>) -> Seq<LineModel> {
    v.map_values(|l: DiffLine| l@)
}

impl View for Hunk {
    type V = HunkModel;

    open spec fn view(&self) -> HunkModel {
        HunkModel { header: self.header@, lines: line_models(self.lines@) }
    }
}

/// What the hunks of a list hold.
pub open spec fn hunk_models(v: Seq<Hunk>) -> Seq<HunkModel> {
    v.map_values(|h: Hunk| h@)
}

impl View for FileDiff {
    type V = FileModel;

    open spec fn view(&self) -> FileModel {
        FileModel {
            path: self.path@,
            old_path: text_in(self.old_path),
            hunks: hunk_models(self.hunks@),
        }
    }
}

/// What the diffs of a list hold.
pub open spec fn file_models(v: Seq<FileDiff>) -> Seq<FileModel> {
    v.map_values(|f: FileDiff| f@)
}

/// How many lines of a kind there are.
pub open spec fn count_in(lines: Seq<LineModel>, kind: DiffLineType) -> nat {
    lines.filter(|l: LineModel| l.kind == kind).len()
}

/// How many lines of a kind the hunks have together.
pub open spec fn count_of(hunks: Seq<HunkModel>, kind: DiffLineType) -> nat
    decreases hunks.len(),
{
    if hunks.len() == 0 {
        0
    } else {
        count_of(hunks.drop_last(), kind) + count_in(hunks.last().lines, kind)
    }
}

/// How many lines of a kind are among `lines`.
fn count_lines(lines: &[DiffLine], kind: DiffLineType) -> (n: usize)
    ensures
        n == count_in(line_models(lines@), kind),
        n <= lines@.len(),
{
    let mut n: usize = 0;
    let mut i: usize = 0;
    let ghost all = line_models(lines@);
    let ghost chosen = |l: LineModel| l.kind == kind;
    assert(all.take(0).filter(chosen) =~= Seq::empty()) by {
        reveal(Seq::filter);
    }
    while i < lines.len()
        invariant
            n <= i <= lines@.len(),
            all == line_models(lines@),
            chosen == (|l: LineModel| l.kind == kind),
            n == all.take(i as int).filter(chosen).len(),
        decreases lines@.len() - i,
    {
        proof {
            reveal(Seq::filter);
            assert(all.take(i + 1).drop_last() =~= all.take(i as int));
            assert(all.take(i + 1).last() == lines@[i as int]@);
        }
        if lines[i].kind == kind {
            n += 1;
        }
        i += 1;
    }
    assert(all.take(i as int) =~= all);
    n
}

impl FileDiff {
    /// How many lines of a kind the diff has.
    pub fn count(&self, kind: DiffLineType) -> (n: u128)
        ensures
            n == count_of(self@.hunks, kind),
    {
        let mut n: u128 = 0;
        let mut i: usize = 0;
        let size = self.hunks.len();
        assert(self@.hunks.take(0) =~= Seq::empty());
        while i < size
            invariant
                i <= size == self.hunks@.len(),
                n == count_of(self@.hunks.take(i as int), kind),
                n <= i * usize::MAX,
            decreases size - i,
        {
            proof {
                assert(self@.hunks.take(i + 1).drop_last() =~= self@.hunks.take(i as int));
                assert(self@.hunks.take(i + 1).last() == self.hunks@[i as int]@);
                assert(i * usize::MAX + usize::MAX <= u128::MAX) by (nonlinear_arith)
                    requires
                        i < usize::MAX,
                        usize::MAX <= u64::MAX,
                ;
                assert((i + 1) * usize::MAX == i * usize::MAX + usize::MAX) by (nonlinear_arith);
            }
            n += count_lines(self.hunks[i].lines.as_slice(), kind) as u128;
            i += 1;
        }
        assert(self@.hunks.take(i as int) =~= self@.hunks);
        n
    }

    /// How many lines the diff adds.
    pub fn total_additions(&self) -> (n: usize)
        requires
            count_of(self@.hunks, DiffLineType::Add) <= usize::MAX,
        ensures
            n == count_of(self@.hunks, DiffLineType::Add),
    {
        self.count(DiffLineType::Add) as usize
    }

    /// How many lines the diff removes.
    pub fn total_deletions(&self) -> (n: usize)
        requires
            count_of(self@.hunks, DiffLineType::Remove) <= usize::MAX,
        ensures
            n == count_of(self@.hunks, DiffLineType::Remove),
    {
        self.count(DiffLineType::Remove) as usize
    }
}

// ---- Reading a patch ---------------------------------------------------------

/// The path that a `diff --git` line names: its fourth word, without the prefix
/// of the new side.
pub open spec fn started_path(line: Seq<char>) -> Seq<char> {
    let w = words_of(line);
    if w.len() >= 4 {
        without_leading(without_leading(w[3], "b/"@), "w/"@)
    } else {
        "unknown"@
    }
}

/// The path that a `---` line names, without the prefix of the old side.
pub open spec fn old_path_on(line: Seq<char>) -> Seq<char> {
    without_leading(without_leading(trimmed(line.skip(4)), "a/"@), "i/"@)
}

/// The path that a `+++` line names, without the prefix of the new side.
pub open spec fn new_path_on(line: Seq<char>) -> Seq<char> {
    without_leading(without_leading(trimmed(line.skip(4)), "b/"@), "w/"@)
}

/// Whether a line says something about a file that is not shown.
pub open spec fn is_metadata(line: Seq<char>) -> bool {
    begins(line, "index "@) || begins(line, "old mode "@) || begins(line, "new mode "@) || begins(
        line,
        "deleted file "@,
    ) || begins(line, "new file "@) || begins(line, "rename "@) || begins(line, "similarity "@)
}

/// The kind of a line of a hunk, by its first character.
pub open spec fn line_kind(line: Seq<char>) -> Option<DiffLineType> {
    if line.len() == 0 {
        None
    } else if line[0] == '+' {
        Some(DiffLineType::Add)
    } else if line[0] == '-' {
        Some(DiffLineType::Remove)
    } else if line[0] == ' ' {
        Some(DiffLineType::Context)
    } else {
        None
    }
}

impl FileModel {
    /// The file with one more hunk.
    pub open spec fn with_hunk(self, hunk: HunkModel) -> FileModel {
        FileModel { hunks: self.hunks.push(hunk), ..self }
    }
}

impl HunkModel {
    /// The hunk with one more line, which carries no line numbers.
    pub open spec fn with_line(self, kind: DiffLineType, content: Seq<char>) -> HunkModel {
        HunkModel {
            lines: self.lines.push(
                LineModel { kind, old_line: None, new_line: None, content },
            ),
            ..self
        }
    }
}

/// How far a patch has been read: the files that are complete, the file that is
/// being read and the hunk that is being read.
#[verifier::ext_equal]
pub struct PatchModel {
    pub files: Seq<FileModel>,
    pub file: Option<FileModel>,
    pub hunk: Option<HunkModel>,
}

impl PatchModel {
    /// Nothing has been read.
    pub open spec fn start() -> PatchModel {
        PatchModel { files: Seq::empty(), file: None, hunk: None }
    }

    /// The complete files, with the one that is being read.
    pub open spec fn with_file(self) -> Seq<FileModel> {
        match self.file {
            Some(f) => self.files.push(f),
            None => self.files,
        }
    }

    /// The file that is being read, with the hunk that is being read.
    pub open spec fn file_with_hunk(self) -> Option<FileModel> {
        match (self.file, self.hunk) {
            (Some(f), Some(h)) => Some(f.with_hunk(h)),
            _ => self.file,
        }
    }

    /// What is known after one more line.
    pub open spec fn read(self, line: Seq<char>) -> PatchModel {
        if begins(line, "diff --git "@) {
            PatchModel {
                files: self.with_file(),
                file: Some(
                    FileModel { path: started_path(line), old_path: None, hunks: Seq::empty() },
                ),
                hunk: self.hunk,
            }
        } else if begins(line, "--- "@) {
            match self.file {
                Some(f) if f.old_path is None && old_path_on(line) != "/dev/null"@ => PatchModel {
                    file: Some(FileModel { old_path: Some(old_path_on(line)), ..f }),
                    ..self
                },
                _ => self,
            }
        } else if begins(line, "+++ "@) {
            match self.file {
                Some(f) if f.path == "unknown"@ && new_path_on(line) != "/dev/null"@ => PatchModel {
                    file: Some(FileModel { path: new_path_on(line), ..f }),
                    ..self
                },
                _ => self,
            }
        } else if is_metadata(line) {
            self
        } else if begins(line, "@@"@) {
            PatchModel {
                file: self.file_with_hunk(),
                hunk: Some(HunkModel { header: line, lines: Seq::empty() }),
                ..self
            }
        } else {
            match (self.hunk, line_kind(line)) {
                (Some(h), Some(kind)) => PatchModel {
                    hunk: Some(h.with_line(kind, line.skip(1))),
                    ..self
                },
                _ => self,
            }
        }
    }

    /// The files of the patch, after its last line.
    pub open spec fn finished(self) -> Seq<FileModel> {
        match self.file_with_hunk() {
            Some(f) => self.files.push(f),
            None => self.files,
        }
    }
}

/// What is known after the given lines.
pub open spec fn after_lines(lines: Seq<Seq<char>>) -> PatchModel
    decreases lines.len(),
{
    if lines.len() == 0 {
        PatchModel::start()
    } else {
        after_lines(lines.drop_last()).read(lines.last())
    }
}

/// The files of a unified patch.
pub open spec fn patch_files(content: Seq<char>) -> Seq<FileModel> {
    after_lines(lines_of(content)).finished()
}

/// A patch that is being read.
struct PatchReader {
    files: Vec<FileDiff>,
    file: Option<FileDiff>,
    hunk: Option<Hunk>,
}

impl View for PatchReader {
    type V = PatchModel;

    closed spec fn view(&self) -> PatchModel {
        PatchModel {
            files: file_models(self.files@),
            file: match self.file {
                Some(f) => Some(f@),
                None => None,
            },
            hunk: match self.hunk {
                Some(h) => Some(h@),
                None => None,
            },
        }
    }
}

/// The path without the two prefixes.
fn strip_side(path: &[char], one: &str, other: &str) -> (r: String)
    requires
        one@.len() > 0,
        other@.len() > 0,
    ensures
        r@ == without_leading(without_leading(path@, one@), other@),
{
    string_of(strip_leading(strip_leading(path, one), other))
}

fn path_started(line: &[char]) -> (r: String)
    ensures
        r@ == started_path(line@),
{
    proof {
        reveal_strlit("b/");
        reveal_strlit("w/");
    }
    let w = words(line);
    if w.len() >= 4 {
        assert(slices(w@)[3] == w@[3]@);
        strip_side(w[3], "b/", "w/")
    } else {
        "unknown".to_string()
    }
}

fn says_metadata(line: &[char]) -> (r: bool)
    ensures
        r == is_metadata(line@),
{
    starts_with(line, "index ") || starts_with(line, "old mode ") || starts_with(line, "new mode ")
        || starts_with(line, "deleted file ") || starts_with(line, "new file ") || starts_with(
        line,
        "rename ",
    ) || starts_with(line, "similarity ")
}

fn kind_of_line(line: &[char]) -> (r: Option<DiffLineType>)
    ensures
        r == line_kind(line@),
{
    if line.len() == 0 {
        None
    } else if line[0] == '+' {
        Some(DiffLineType::Add)
    } else if line[0] == '-' {
        Some(DiffLineType::Remove)
    } else if line[0] == ' ' {
        Some(DiffLineType::Context)
    } else {
        None
    }
}

impl PatchReader {
    fn start() -> (r: PatchReader)
        ensures
            r@ == PatchModel::start(),
    {
        let r = PatchReader { files: Vec::new(), file: None, hunk: None };
        assert(r@ =~= PatchModel::start());
        r
    }

    /// Moves the file that is being read to the complete ones.
    fn close_file(&mut self)
        ensures
            final(self)@ == (PatchModel { files: old(self)@.with_file(), file: None, ..old(self)@ }),
    {
        if let Some(file) = self.file.take() {
            let ghost before = file_models(self.files@);
            self.files.push(file);
            assert(file_models(self.files@) =~= before.push(file@));
        }
    }

    /// Moves the hunk that is being read to its file, if there is one.
    fn close_hunk(&mut self)
        ensures
            final(self)@ == (PatchModel { file: old(self)@.file_with_hunk(), hunk: None, ..old(self)@ }),
    {
        if let Some(hunk) = self.hunk.take() {
            if let Some(file) = self.file.take() {
                let FileDiff { path, old_path, mut hunks } = file;
                let ghost before = hunk_models(hunks@);
                hunks.push(hunk);
                assert(hunk_models(hunks@) =~= before.push(hunk@));
                self.file = Some(FileDiff { path, old_path, hunks });
            }
        }
    }

    fn read_old_path(&mut self, line: &[char])
        requires
            line@.len() >= 4,
        ensures
            final(self)@ == (match old(self)@.file {
                Some(f) if f.old_path is None && old_path_on(line@) != "/dev/null"@ => PatchModel {
                    file: Some(FileModel { old_path: Some(old_path_on(line@)), ..f }),
                    ..old(self)@
                },
                _ => old(self)@,
            }),
    {
        if let Some(file) = self.file.take() {
            let FileDiff { path, mut old_path, hunks } = file;
            proof {
                reveal_strlit("a/");
                reveal_strlit("i/");
            }
            let named = strip_side(trim(slice_subrange(line, 4, line.len())), "a/", "i/");
            if old_path.is_none() && !same_text(named.as_str(), "/dev/null") {
                old_path = Some(named);
            }
            self.file = Some(FileDiff { path, old_path, hunks });
        }
    }

    fn read_new_path(&mut self, line: &[char])
        requires
            line@.len() >= 4,
        ensures
            final(self)@ == (match old(self)@.file {
                Some(f) if f.path == "unknown"@ && new_path_on(line@) != "/dev/null"@ => PatchModel {
                    file: Some(FileModel { path: new_path_on(line@), ..f }),
                    ..old(self)@
                },
                _ => old(self)@,
            }),
    {
        if let Some(file) = self.file.take() {
            let FileDiff { mut path, old_path, hunks } = file;
            proof {
                reveal_strlit("b/");
                reveal_strlit("w/");
            }
            let named = strip_side(trim(slice_subrange(line, 4, line.len())), "b/", "w/");
            if same_text(path.as_str(), "unknown") && !same_text(named.as_str(), "/dev/null") {
                path = named;
            }
            self.file = Some(FileDiff { path, old_path, hunks });
        }
    }

    /// Takes one more line into account.
    fn read(&mut self, line: &[char])
        ensures
            final(self)@ == old(self)@.read(line@),
    {
        proof {
            reveal_strlit("--- ");
            reveal_strlit("+++ ");
        }
        if starts_with(line, "diff --git ") {
            self.close_file();
            let file = FileDiff { path: path_started(line), old_path: None, hunks: Vec::new() };
            assert(hunk_models(file.hunks@) =~= Seq::empty());
            self.file = Some(file);
        } else if starts_with(line, "--- ") {
            self.read_old_path(line);
        } else if starts_with(line, "+++ ") {
            self.read_new_path(line);
        } else if says_metadata(line) {
        } else if starts_with(line, "@@") {
            self.close_hunk();
            let hunk = Hunk { header: string_of(line), lines: Vec::new() };
            assert(line_models(hunk.lines@) =~= Seq::empty());
            self.hunk = Some(hunk);
        } else if let Some(hunk) = self.hunk.take() {
            let Hunk { header, mut lines } = hunk;
            if let Some(kind) = kind_of_line(line) {
                let ghost before = line_models(lines@);
                let added = DiffLine {
                    kind,
                    old_line: None,
                    new_line: None,
                    content: string_of(slice_subrange(line, 1, line.len())),
                };
                lines.push(added);
                assert(line_models(lines@) =~= before.push(added@));
            }
            self.hunk = Some(Hunk { header, lines });
        }
    }

    /// The files of the patch, after its last line.
    fn finish(self) -> (r: Vec<FileDiff>)
        ensures
            file_models(r@) == self@.finished(),
    {
        let mut reader = self;
        reader.close_hunk();
        reader.close_file();
        reader.files
    }
}

/// Reads a unified patch. Every text is one, so that this always succeeds.
pub fn parse_unified_diff(content: &str) -> (r: Result<Vec<FileDiff>, String>)
    ensures
        r is Ok,
        r matches Ok(files) ==> file_models(files@) == patch_files(content@),
{
    let chars = chars_of(content);
    let all = lines(chars.as_slice());
    let mut reader = PatchReader::start();
    let mut i: usize = 0;
    assert(slices(all@).take(0) =~= Seq::empty());
    while i < all.len()
        invariant
            i <= all@.len(),
            reader@ == after_lines(slices(all@).take(i as int)),
        decreases all@.len() - i,
    {
        reader.read(all[i]);
        proof {
            let upto = slices(all@).take(i + 1);
            assert(upto.drop_last() =~= slices(all@).take(i as int));
            assert(upto.last() == all@[i as int]@);
        }
        i += 1;
    }
    assert(slices(all@).take(i as int) =~= slices(all@));
    Ok(reader.finish())
}

// ---- Comparing two texts -----------------------------------------------------

/// What has become of a line.
#[derive(Debug, Clone, Copy, PartialEq, Eq, Structural)]
pub enum LineTag {
    Delete,
    Insert,
    Equal,
}

/// A line of two texts that are compared, with its index on each side that has
/// it.
#[derive(Debug, Clone)]
pub struct LineChange {
    pub tag: LineTag,
    pub old_index: Option<usize>,
    pub new_index: Option<usize>,
    pub value: String,
}

/// A line of two texts that are compared.
#[verifier::ext_equal]
pub struct ChangeModel {
    pub tag: LineTag,
    pub old_index: Option<usize>,
    pub new_index: Option<usize>,
    pub value: Seq<char>,
}

impl View for LineChange {
    type V = ChangeModel;

    open spec fn view(&self) -> ChangeModel {
        ChangeModel {
            tag: self.tag,
            old_index: self.old_index,
            new_index: self.new_index,
            value: self.value@,
        }
    }
}

/// The changes of a list.
pub open spec fn change_models(v: Seq<LineChange>) -> Seq<ChangeModel> {
    v.map_values(|c: LineChange| c@)
}

/// The groups of changes of a list.
pub open spec fn group_models(v: Seq<Vec<LineChange>>) -> Seq<Seq<ChangeModel>> {
    v.map_values(|g: Vec<LineChange>| change_models(g@))
}

/// The length of the first line of `s`, with the line end: a newline, a return,
/// or a return and a newline.
pub open spec fn line_span(s: Seq<char>) -> nat
    decreases s.len(),
{
    if s.len() == 0 {
        0
    } else if s[0] == '\n' {
        1
    } else if s[0] == '\r' {
        if s.len() > 1 && s[1] == '\n' { 2 } else { 1 }
    } else {
        1 + line_span(s.skip(1))
    }
}

/// A line is no longer than the text it starts, and not empty.
pub proof fn lemma_line_span(s: Seq<char>)
    ensures
        line_span(s) <= s.len(),
        s.len() > 0 ==> line_span(s) > 0,
    decreases s.len(),
{
    if s.len() > 0 && s[0] != '\n' && s[0] != '\r' {
        lemma_line_span(s.skip(1));
    }
}

/// The lines of `s`, each with its line end.
pub open spec fn whole_lines(s: Seq<char>) -> Seq<Seq<char>>
    decreases s.len(),
{
    proof {
        lemma_line_span(s);
    }
    if s.len() == 0 {
        Seq::empty()
    } else {
        seq![s.take(line_span(s) as int)] + whole_lines(s.skip(line_span(s) as int))
    }
}

proof fn lemma_whole_lines(s: Seq<char>)
    ensures
        whole_lines(s).len() <= s.len(),
    decreases s.len(),
{
    if s.len() > 0 {
        lemma_line_span(s);
        lemma_whole_lines(s.skip(line_span(s) as int));
    }
}

/// Whether a change has an index on each side that has its line, and on no other.
pub open spec fn is_indexed(c: ChangeModel) -> bool {
    &&& c.old_index is Some <==> c.tag != LineTag::Insert
    &&& c.new_index is Some <==> c.tag != LineTag::Delete
}

/// Whether a change shows lines that the two texts have, at the indices it
/// gives.
pub open spec fn shows_lines(c: ChangeModel, old: Seq<Seq<char>>, new: Seq<Seq<char>>) -> bool {
    &&& is_indexed(c)
    &&& c.old_index matches Some(i) ==> i < old.len() && c.value == old[i as int]
    &&& c.new_index matches Some(j) ==> j < new.len() && c.value == new[j as int]
}

/// The groups of changes that turn the lines of `old` into those of `new`, with
/// up to `context` equal lines around each.
pub uninterp spec fn line_groups(old: Seq<char>, new: Seq<char>, context: usize) -> Seq<
    Seq<ChangeModel>,
>;

/// `similar::TextDiff::from_lines`, with the changes of each group of
/// `TextDiff::grouped_ops`: the lines that differ between two texts, and the
/// equal ones around them. A deleted line is given with its index among the
/// lines of the old text, an inserted one with its index among those of the new
/// text, an equal one with both. There is no group just if the texts are the same.
/// Twice the number of equal lines must be a machine number.
#[verifier::external_body]
fn changed_lines(old: &str, new: &str, context: usize) -> (r: Vec<Vec<LineChange>>)
    requires
        context <= usize::MAX / 2,
    ensures
        group_models(r@) == line_groups(old@, new@, context),
        r@.len() == 0 <==> old@ == new@,
        forall|g: int, k: int|
            0 <= g < r@.len() && 0 <= k < r@[g]@.len() ==> shows_lines(
                (#[trigger] r@[g]@[k])@,
                whole_lines(old@),
                whole_lines(new@),
            ),
{
    let diff = TextDiff::from_lines(old, new);
    let tag = |t: ChangeTag| match t {
        ChangeTag::Delete => LineTag::Delete,
        ChangeTag::Insert => LineTag::Insert,
        ChangeTag::Equal => LineTag::Equal,
    };
    let convert = |c: Change<&str>| LineChange {
        tag: tag(c.tag()),
        old_index: c.old_index(),
        new_index: c.new_index(),
        value: c.value().to_string(),
    };
    let groups = diff.grouped_ops(context);
    groups.iter().map(|g| g.iter().flat_map(|op| diff.iter_changes(op)).map(convert).collect()).collect()
}

/// Whether a change has the indices that it should have, and its line numbers,
/// which count from 1, are machine numbers.
pub open spec fn is_numbered(c: ChangeModel) -> bool {
    &&& is_indexed(c)
    &&& c.old_index matches Some(i) ==> i < usize::MAX
    &&& c.new_index matches Some(j) ==> j < usize::MAX
}

/// The line number of an index.
pub open spec fn number_at(index: Option<usize>) -> Option<usize> {
    match index {
        Some(i) => Some((i + 1) as usize),
        None => None,
    }
}

/// The line that shows a change. Line numbers count from 1.
pub open spec fn shown_line(c: ChangeModel) -> LineModel {
    LineModel {
        kind: match c.tag {
            LineTag::Delete => DiffLineType::Remove,
            LineTag::Insert => DiffLineType::Add,
            LineTag::Equal => DiffLineType::Context,
        },
        old_line: number_at(c.old_index),
        new_line: number_at(c.new_index),
        content: c.value,
    }
}

/// The lines that show a group of changes.
pub open spec fn shown_lines(group: Seq<ChangeModel>) -> Seq<LineModel> {
    group.map_values(|c: ChangeModel| shown_line(c))
}

/// Where a line starts on one side: 1 if it is not on that side.
pub open spec fn start_of(line: Option<usize>) -> nat {
    match line {
        Some(n) => n as nat,
        None => 1,
    }
}

/// The header over the lines of a hunk: where they start and how many there
/// are, on the old and on the new side.
pub open spec fn hunk_header(lines: Seq<LineModel>) -> Seq<char> {
    let (old_start, new_start) = if lines.len() == 0 {
        (0, 0)
    } else {
        (start_of(lines[0].old_line), start_of(lines[0].new_line))
    };
    "@@ -"@ + decimal(old_start) + ","@ + decimal(
        (lines.len() - count_in(lines, DiffLineType::Add)) as nat,
    ) + " +"@ + decimal(new_start) + ","@ + decimal(
        (lines.len() - count_in(lines, DiffLineType::Remove)) as nat,
    ) + " @@"@
}

/// The hunk that shows a group of changes.
pub open spec fn shown_hunk(group: Seq<ChangeModel>) -> HunkModel {
    HunkModel { header: hunk_header(shown_lines(group)), lines: shown_lines(group) }
}

/// The hunks that show groups of changes.
pub open spec fn shown_hunks(groups: Seq<Seq<ChangeModel>>) -> Seq<HunkModel> {
    groups.map_values(|g: Seq<ChangeModel>| shown_hunk(g))
}

fn number_of_index(index: Option<usize>) -> (r: Option<usize>)
    requires
        index matches Some(i) ==> i < usize::MAX,
    ensures
        r == number_at(index),
{
    match index {
        Some(i) => Some(i + 1),
        None => None,
    }
}

fn show_line(c: &LineChange) -> (r: DiffLine)
    requires
        is_numbered(c@),
    ensures
        r@ == shown_line(c@),
{
    DiffLine {
        kind: match c.tag {
            LineTag::Delete => DiffLineType::Remove,
            LineTag::Insert => DiffLineType::Add,
            LineTag::Equal => DiffLineType::Context,
        },
        old_line: number_of_index(c.old_index),
        new_line: number_of_index(c.new_index),
        content: c.value.clone(),
    }
}

fn show_header(lines: &[DiffLine]) -> (r: String)
    ensures
        r@ == hunk_header(line_models(lines@)),
{
    let mut old_start: usize = 0;
    let mut new_start: usize = 0;
    let ghost all = line_models(lines@);
    if lines.len() > 0 {
        assert(all[0] == lines@[0]@);
        old_start = match lines[0].old_line {
            Some(n) => n,
            None => 1,
        };
        new_start = match lines[0].new_line {
            Some(n) => n,
            None => 1,
        };
    }
    let old_lines = lines.len() - count_lines(lines, DiffLineType::Add);
    let new_lines = lines.len() - count_lines(lines, DiffLineType::Remove);
    let mut header = "@@ -".to_string();
    push_decimal(&mut header, old_start as u128);
    push_text(&mut header, ",");
    push_decimal(&mut header, old_lines as u128);
    push_text(&mut header, " +");
    push_decimal(&mut header, new_start as u128);
    push_text(&mut header, ",");
    push_decimal(&mut header, new_lines as u128);
    push_text(&mut header, " @@");
    header
}

/// The hunks that show groups of changes.
pub fn build_hunks(groups: &[Vec<LineChange>]) -> (r: Vec<Hunk>)
    requires
        forall|g: int, k: int|
            0 <= g < groups@.len() && 0 <= k < groups@[g]@.len() ==> is_numbered(
                (#[trigger] groups@[g]@[k])@,
            ),
    ensures
        hunk_models(r@) == shown_hunks(group_models(groups@)),
{
    let mut hunks: Vec<Hunk> = Vec::new();
    let mut g: usize = 0;
    while g < groups.len()
        invariant
            g <= groups@.len(),
            hunks@.len() == g,
            forall|h: int, k: int|
                0 <= h < groups@.len() && 0 <= k < groups@[h]@.len() ==> is_numbered(
                    (#[trigger] groups@[h]@[k])@,
                ),
            forall|h: int| 0 <= h < g ==> (#[trigger] hunks@[h])@ == shown_hunk(change_models(groups@[h]@)),
        decreases groups@.len() - g,
    {
        let group = &groups[g];
        let mut lines: Vec<DiffLine> = Vec::new();
        let mut k: usize = 0;
        while k < group.len()
            invariant
                g < groups@.len(),
                group@ == groups@[g as int]@,
                k <= group@.len(),
                lines@.len() == k,
                forall|h: int, k: int|
                    0 <= h < groups@.len() && 0 <= k < groups@[h]@.len() ==> is_numbered(
                        (#[trigger] groups@[h]@[k])@,
                    ),
                forall|j: int| 0 <= j < k ==> (#[trigger] lines@[j])@ == shown_line(group@[j]@),
            decreases group@.len() - k,
        {
            assert(is_numbered(groups@[g as int]@[k as int]@));
            lines.push(show_line(&group[k]));
            k += 1;
        }
        assert(line_models(lines@) =~= shown_lines(change_models(group@)));
        let header = show_header(lines.as_slice());
        hunks.push(Hunk { header, lines });
        g += 1;
    }
    proof {
        assert forall|h: int| 0 <= h < hunks@.len() implies hunk_models(hunks@)[h] == shown_hunks(
            group_models(groups@),
        )[h] by {
            assert(hunks@[h]@ == shown_hunk(change_models(groups@[h]@)));
        }
        assert(hunk_models(hunks@) =~= shown_hunks(group_models(groups@)));
    }
    hunks
}

/// How many equal lines are shown around a change.
pub const CONTEXT_LINES: usize = 3;

/// Whether every line of the hunks shows a line of one of the two texts, under
/// its number there.
pub open spec fn lines_are_true(hunks: Seq<HunkModel>, old: Seq<Seq<char>>, new: Seq<Seq<char>>) -> bool {
    forall|h: int, k: int|
        0 <= h < hunks.len() && 0 <= k < hunks[h].lines.len() ==> is_true_line(
            #[trigger] hunks[h].lines[k],
            old,
            new,
        )
}

/// Whether a line shows a line of one of the two texts, under its number there.
pub open spec fn is_true_line(l: LineModel, old: Seq<Seq<char>>, new: Seq<Seq<char>>) -> bool {
    &&& l.old_line is Some <==> l.kind != DiffLineType::Add
    &&& l.new_line is Some <==> l.kind != DiffLineType::Remove
    &&& l.old_line matches Some(n) ==> 1 <= n <= old.len() && l.content == old[n - 1]
    &&& l.new_line matches Some(n) ==> 1 <= n <= new.len() && l.content == new[n - 1]
}

/// The hunks that turn `old` into `new`, none just if the texts are the same. Every
/// line of them stands in the texts under the number it is shown with.
fn compare(old: &str, new: &str) -> (r: Vec<Hunk>)
    ensures
        hunk_models(r@) == shown_hunks(line_groups(old@, new@, CONTEXT_LINES)),
        hunk_models(r@).len() == 0 <==> old@ == new@,
        lines_are_true(hunk_models(r@), whole_lines(old@), whole_lines(new@)),
{
    let groups = changed_lines(old, new, CONTEXT_LINES);
    let old_size = chars_of(old).len();
    let new_size = chars_of(new).len();
    let ghost (a, b) = (whole_lines(old@), whole_lines(new@));
    proof {
        lemma_whole_lines(old@);
        lemma_whole_lines(new@);
        assert forall|g: int, k: int| 0 <= g < groups@.len() && 0 <= k < groups@[g]@.len() implies is_numbered(
            (#[trigger] groups@[g]@[k])@,
        ) by {
            assert(shows_lines(groups@[g]@[k]@, a, b));
        }
    }
    let hunks = build_hunks(groups.as_slice());
    proof {
        let shown = hunk_models(hunks@);
        assert forall|h: int, k: int| 0 <= h < shown.len() && 0 <= k < shown[h].lines.len() implies is_true_line(
            #[trigger] shown[h].lines[k],
            a,
            b,
        ) by {
            assert(shown[h] == shown_hunk(change_models(groups@[h]@)));
            assert(shown[h].lines[k] == shown_line(groups@[h]@[k]@));
            assert(shows_lines(groups@[h]@[k]@, a, b));
        }
    }
    hunks
}

/// The diff of two files with the given contents. It has no hunks just if they are
/// the same.
pub fn diff_files(old_path: &str, new_path: &str, old_content: &str, new_content: &str) -> (r: Vec<FileDiff>)
    ensures
        file_models(r@) == seq![
            FileModel {
                path: new_path@,
                old_path: Some(old_path@),
                hunks: shown_hunks(line_groups(old_content@, new_content@, CONTEXT_LINES)),
            },
        ],
        file_models(r@)[0].hunks.len() == 0 <==> old_content@ == new_content@,
        lines_are_true(file_models(r@)[0].hunks, whole_lines(old_content@), whole_lines(new_content@)),
{
    let hunks = compare(old_content, new_content);
    let file = FileDiff { path: new_path.to_string(), old_path: Some(old_path.to_string()), hunks };
    let mut r: Vec<FileDiff> = Vec::new();
    r.push(file);
    assert(file_models(r@) =~= seq![file@]);
    r
}

/// A file that the repository does not track, as found in the work tree.
#[derive(Debug, Clone)]
pub struct UntrackedFile {
    pub path: String,
    pub content: String,
}

/// The diff of a file that is new: a comparison with the empty text.
pub open spec fn new_file(path: Seq<char>, content: Seq<char>) -> FileModel {
    FileModel {
        path,
        old_path: None,
        hunks: shown_hunks(line_groups(Seq::empty(), content, CONTEXT_LINES)),
    }
}

/// The diffs of files that are new.
pub open spec fn new_files(found: Seq<UntrackedFile>) -> Seq<FileModel> {
    found.map_values(|f: UntrackedFile| new_file(f.path@, f.content@))
}

/// Whether every line of the hunks is an added one.
pub open spec fn only_additions(hunks: Seq<HunkModel>) -> bool {
    forall|h: int, k: int|
        0 <= h < hunks.len() && 0 <= k < hunks[h].lines.len() ==> (
        #[trigger] hunks[h].lines[k]).kind == DiffLineType::Add
}

/// Adds a diff for each file that the repository does not track; these have
/// added lines only, and no hunks just if the file is empty.
pub fn untracked_files(found: &[UntrackedFile], files: &mut Vec<FileDiff>)
    ensures
        file_models(final(files)@) == file_models(old(files)@) + new_files(found@),
        forall|i: int|
            file_models(old(files)@).len() <= i < file_models(final(files)@).len() ==> only_additions(
                (#[trigger] file_models(final(files)@)[i]).hunks,
            ),
        forall|i: int|
            0 <= i < found@.len() ==> (file_models(final(files)@)[old(files)@.len() + i].hunks.len() == 0
                <==> (#[trigger] found@[i]).content@.len() == 0),
{
    let ghost before = file_models(files@);
    let mut i: usize = 0;
    assert(new_files(found@).take(0) =~= Seq::empty());
    assert(before + Seq::<FileModel>::empty() =~= before);
    while i < found.len()
        invariant
            i <= found@.len(),
            file_models(files@) == before + new_files(found@).take(i as int),
            forall|k: int|
                before.len() <= k < before.len() + i ==> only_additions(
                    (#[trigger] file_models(files@)[k]).hunks,
                ),
            forall|k: int|
                0 <= k < i ==> (new_files(found@)[k].hunks.len() == 0
                    <==> (#[trigger] found@[k]).content@.len() == 0),
        decreases found@.len() - i,
    {
        proof {
            reveal_strlit("");
            assert(""@ =~= Seq::<char>::empty());
        }
        let hunks = compare("", found[i].content.as_str());
        let file = FileDiff { path: found[i].path.clone(), old_path: None, hunks };
        let ghost so_far = file_models(files@);
        files.push(file);
        proof {
            assert(file_models(files@) =~= so_far.push(file@));
            assert(file@ == new_files(found@)[i as int]);
            assert(found@[i as int].content@.len() == 0 ==> found@[i as int].content@ =~= ""@);
            assert(file_models(files@) =~= before + new_files(found@).take(i + 1));
            assert(only_additions(file@.hunks)) by {
                let shown = file@.hunks;
                assert forall|h: int, k: int|
                    0 <= h < shown.len() && 0 <= k < shown[h].lines.len() implies (
                #[trigger] shown[h].lines[k]).kind == DiffLineType::Add by {
                    assert(is_true_line(shown[h].lines[k], whole_lines(""@), whole_lines(found@[i as int].content@)));
                }
            }
        }
        i += 1;
    }
    assert(new_files(found@).take(i as int) =~= new_files(found@));
}

// ---- Where diffs come from ---------------------------------------------------

/// What is compared with what.
#[derive(Debug, Clone, Copy, PartialEq, Eq, Structural)]
pub enum DiffTarget {
    /// One tree with another.
    Trees,
    /// The tree of the last commit with the index.
    HeadToIndex,
    /// The index with the work tree.
    IndexToWorkTree,
}

/// What is compared with what: `show` compares trees, otherwise `staged` tells
/// the staged changes from those that are not.
pub fn diff_target(staged: bool, show: bool) -> (r: DiffTarget)
    ensures
        r == (if show {
            DiffTarget::Trees
        } else if staged {
            DiffTarget::HeadToIndex
        } else {
            DiffTarget::IndexToWorkTree
        }),
{
    if show {
        DiffTarget::Trees
    } else if staged {
        DiffTarget::HeadToIndex
    } else {
        DiffTarget::IndexToWorkTree
    }
}

/// A line of a printed patch: file and hunk headers stand as they are, other
/// lines after the character that says what they are.
pub open spec fn printed_line(origin: char, content: Seq<u8>) -> Seq<char> {
    if origin == 'F' || origin == 'H' {
        lossy_text(content)
    } else {
        seq![origin] + lossy_text(content)
    }
}

/// Appends a line to a printed patch.
pub fn push_patch_line(output: &mut String, origin: char, content: &[u8])
    ensures
        final(output)@ == old(output)@ + printed_line(origin, content@),
{
    if origin != 'F' && origin != 'H' {
        output.push(origin);
    }
    push_text(output, lossy(content).as_str());
    assert(output@ =~= old(output)@ + printed_line(origin, content@));
}

/// The diffs of a repository: those of the patch that git printed and, for
/// changes that are not staged, those of the untracked files.
pub fn git_diff(diff_output: &str, staged: bool, untracked: &[UntrackedFile]) -> (r: Vec<FileDiff>)
    ensures
        file_models(r@) == patch_files(diff_output@) + (if staged {
            Seq::empty()
        } else {
            new_files(untracked@)
        }),
{
    let mut files = match parse_unified_diff(diff_output) {
        Ok(files) => files,
        Err(_) => Vec::new(),
    };
    if !staged {
        untracked_files(untracked, &mut files);
    }
    assert(staged ==> file_models(files@) =~= patch_files(diff_output@) + Seq::<FileModel>::empty());
    files
}

/// The revision to show: the last commit if none is named.
pub fn shown_revision(revision: Option<&str>) -> (r: String)
    ensures
        r@ == (match revision {
            Some(rev) => rev@,
            None => "HEAD"@,
        }),
{
    match revision {
        Some(rev) => rev.to_string(),
        None => "HEAD".to_string(),
    }
}

/// The diffs of a commit, from the patch that git printed.
pub fn git_show(diff_output: &str) -> (r: Vec<FileDiff>)
    ensures
        file_models(r@) == patch_files(diff_output@),
{
    match parse_unified_diff(diff_output) {
        Ok(files) => files,
        Err(_) => Vec::new(),
    }
}

/// Where a patch is read from.
#[derive(Debug, Clone)]
pub enum PatchSource {
    Stdin,
    File(String),
}

/// Where the patch `file` is read from: the standard input if none is named or
/// if it is named `-`.
pub fn patch_source(file: Option<&str>) -> (r: PatchSource)
    ensures
        r is Stdin <==> (file is None || file.unwrap()@ == "-"@),
        r matches PatchSource::File(path) ==> file is Some && path@ == file.unwrap()@,
{
    match file {
        None => PatchSource::Stdin,
        Some(path) => if same_text(path, "-") {
            PatchSource::Stdin
        } else {
            PatchSource::File(path.to_string())
        },
    }
}

/// The diffs of a patch with the given content.
pub fn parse_patch(content: &str) -> (r: Result<Vec<FileDiff>, String>)
    ensures
        r is Ok,
        r matches Ok(files) ==> file_models(files@) == patch_files(content@),
{
    parse_unified_diff(content)
}

/// The diffs of a patch that came in on the standard input.
pub fn read_stdin_patch(input: &str) -> (r: Result<Vec<FileDiff>, String>)
    ensures
        r is Ok,
        r matches Ok(files) ==> file_models(files@) == patch_files(input@),
{
    parse_unified_diff(input)
}

// ---- What reading a patch promises -------------------------------------------

/// How many of the lines start a file.
pub open spec fn starts_in(lines: Seq<Seq<char>>) -> nat {
    lines.filter(|l: Seq<char>| begins(l, "diff --git "@)).len()
}

proof fn lemma_files_read(lines: Seq<Seq<char>>)
    ensures
        after_lines(lines).with_file().len() == starts_in(lines),
        after_lines(lines).file is None ==> after_lines(lines).files.len() == 0,
    decreases lines.len(),
{
    reveal(Seq::filter);
    if lines.len() > 0 {
        lemma_files_read(lines.drop_last());
    }
}

/// A patch has as many files as it has `diff --git` lines.
pub proof fn one_file_per_start(content: Seq<char>)
    ensures
        patch_files(content).len() == starts_in(lines_of(content)),
{
    lemma_files_read(lines_of(content));
}

/// Whether a line of a patch shows a line of a file: it is marked as added,
/// removed or context and does not look like a line that names a file.
pub open spec fn is_body(line: Seq<char>) -> bool {
    line_kind(line) is Some && !begins(line, "--- "@) && !begins(line, "+++ "@)
}

/// The line of a file that a line of a patch shows.
pub open spec fn body_line(line: Seq<char>) -> LineModel {
    LineModel {
        kind: line_kind(line).unwrap(),
        old_line: None,
        new_line: None,
        content: line.skip(1),
    }
}

/// The lines of a hunk are kept as they stand in the patch, in their order and
/// each of its kind, and nothing else changes while they are read.
pub proof fn body_lines_are_kept(before: Seq<Seq<char>>, body: Seq<Seq<char>>)
    requires
        after_lines(before).hunk is Some,
        forall|i: int| 0 <= i < body.len() ==> is_body(#[trigger] body[i]),
    ensures
        ({
            let (s, t) = (after_lines(before), after_lines(before + body));
            let h = s.hunk.unwrap();
            t == PatchModel {
                hunk: Some(
                    HunkModel { lines: h.lines + body.map_values(|l: Seq<char>| body_line(l)), ..h },
                ),
                ..s
            }
        }),
    decreases body.len(),
{
    let s = after_lines(before);
    let h = s.hunk.unwrap();
    let shown = body.map_values(|l: Seq<char>| body_line(l));
    if body.len() == 0 {
        assert(before + body =~= before);
        assert(h.lines + shown =~= h.lines);
    } else {
        let init = body.drop_last();
        let line = body.last();
        assert(is_body(body[body.len() - 1]));
        body_lines_are_kept(before, init);
        assert((before + body).drop_last() =~= before + init);
        assert(init.map_values(|l: Seq<char>| body_line(l)).push(body_line(line)) =~= shown);
        assert((h.lines + init.map_values(|l: Seq<char>| body_line(l))).push(body_line(line))
            =~= h.lines + shown);
        reveal_strlit("diff --git ");
        reveal_strlit("index ");
        reveal_strlit("old mode ");
        reveal_strlit("new mode ");
        reveal_strlit("deleted file ");
        reveal_strlit("new file ");
        reveal_strlit("rename ");
        reveal_strlit("similarity ");
        reveal_strlit("@@");
        lemma_begins_first(line, "diff --git "@);
        lemma_begins_first(line, "index "@);
        lemma_begins_first(line, "old mode "@);
        lemma_begins_first(line, "new mode "@);
        lemma_begins_first(line, "deleted file "@);
        lemma_begins_first(line, "new file "@);
        lemma_begins_first(line, "rename "@);
        lemma_begins_first(line, "similarity "@);
        lemma_begins_first(line, "@@"@);
    }
}

/// The sign that a line of a kind is marked with in a patch.
pub open spec fn sign_of(kind: DiffLineType) -> char {
    match kind {
        DiffLineType::Add => '+',
        DiffLineType::Remove => '-',
        DiffLineType::Context => ' ',
    }
}

/// A line as it stands in a patch.
pub open spec fn signed(l: LineModel) -> Seq<char> {
    seq![sign_of(l.kind)] + l.content
}

/// A hunk as it stands in a patch: its header, then its lines with their signs.
pub open spec fn hunk_text(h: HunkModel) -> Seq<Seq<char>> {
    seq![h.header] + h.lines.map_values(|l: LineModel| signed(l))
}

/// Hunks as they stand in a patch, one after the other.
pub open spec fn hunks_text(hunks: Seq<HunkModel>) -> Seq<Seq<char>>
    decreases hunks.len(),
{
    if hunks.len() == 0 {
        Seq::empty()
    } else {
        hunks_text(hunks.drop_last()) + hunk_text(hunks.last())
    }
}

/// The hunks of files as they stand in a patch, one after the other.
pub open spec fn files_text(files: Seq<FileModel>) -> Seq<Seq<char>>
    decreases files.len(),
{
    if files.len() == 0 {
        Seq::empty()
    } else {
        files_text(files.drop_last()) + hunks_text(files.last().hunks)
    }
}

/// Whether a line is an added line, a removed line or context, and names no file.
pub open spec fn is_signed(line: Seq<char>) -> bool {
    line.len() > 0 && match line[0] {
        '+' => !"+++ "@.is_prefix_of(line),
        '-' => !"--- "@.is_prefix_of(line),
        ' ' => true,
        _ => false,
    }
}

/// The lines that are shown of a patch: the hunk headers, and from the first of them
/// on the added and removed lines and the context.
pub open spec fn shown_of(lines: Seq<Seq<char>>) -> Seq<Seq<char>>
    decreases lines.len(),
{
    if lines.len() == 0 {
        Seq::empty()
    } else {
        let (before, line) = (shown_of(lines.drop_last()), lines.last());
        if "@@"@.is_prefix_of(line) || (before.len() > 0 && is_signed(line)) {
            before.push(line)
        } else {
            before
        }
    }
}

/// Whether a line starts a file.
pub open spec fn starts_file(line: Seq<char>) -> bool {
    "diff --git "@.is_prefix_of(line)
}

/// Whether no hunk comes before the first file.
pub open spec fn starts_with_file(lines: Seq<Seq<char>>) -> bool {
    forall|i: int|
        0 <= i < lines.len() && "@@"@.is_prefix_of(#[trigger] lines[i]) ==> exists|d: int|
            0 <= d < i && starts_file(#[trigger] lines[d])
}

/// Where the last hunk header is, or the end if there is none.
pub open spec fn last_header(lines: Seq<Seq<char>>) -> int
    decreases lines.len(),
{
    if lines.len() == 0 {
        0
    } else if "@@"@.is_prefix_of(lines.last()) {
        lines.len() - 1
    } else if last_header(lines.drop_last()) == lines.len() - 1 {
        lines.len() as int
    } else {
        last_header(lines.drop_last())
    }
}

/// What the prefixes that a patch is read by say of the first character of a line.
proof fn lemma_prefixes(line: Seq<char>)
    ensures
        begins(line, "@@"@) <==> "@@"@.is_prefix_of(line),
        begins(line, "diff --git "@) <==> starts_file(line),
        begins(line, "--- "@) <==> "--- "@.is_prefix_of(line),
        begins(line, "+++ "@) <==> "+++ "@.is_prefix_of(line),
        begins(line, "@@"@) ==> line.len() > 0 && line[0] == '@',
        begins(line, "diff --git "@) ==> line.len() > 0 && line[0] == 'd',
        begins(line, "--- "@) ==> line.len() > 0 && line[0] == '-',
        begins(line, "+++ "@) ==> line.len() > 0 && line[0] == '+',
        is_metadata(line) ==> line.len() > 0 && (line[0] == 'i' || line[0] == 'o' || line[0] == 'n'
            || line[0] == 'd' || line[0] == 'r' || line[0] == 's'),
{
    reveal_strlit("@@");
    reveal_strlit("diff --git ");
    reveal_strlit("--- ");
    reveal_strlit("+++ ");
    reveal_strlit("index ");
    reveal_strlit("old mode ");
    reveal_strlit("new mode ");
    reveal_strlit("deleted file ");
    reveal_strlit("new file ");
    reveal_strlit("rename ");
    reveal_strlit("similarity ");
    lemma_prefix(line, "@@"@);
    lemma_prefix(line, "diff --git "@);
    lemma_prefix(line, "--- "@);
    lemma_prefix(line, "+++ "@);
    lemma_begins_first(line, "@@"@);
    lemma_begins_first(line, "diff --git "@);
    lemma_begins_first(line, "--- "@);
    lemma_begins_first(line, "+++ "@);
    lemma_begins_first(line, "index "@);
    lemma_begins_first(line, "old mode "@);
    lemma_begins_first(line, "new mode "@);
    lemma_begins_first(line, "deleted file "@);
    lemma_begins_first(line, "new file "@);
    lemma_begins_first(line, "rename "@);
    lemma_begins_first(line, "similarity "@);
}

/// The text of the hunk that is being read.
spec fn open_text(hunk: Option<HunkModel>) -> Seq<Seq<char>> {
    match hunk {
        Some(h) => hunk_text(h),
        None => Seq::empty(),
    }
}

proof fn lemma_file_grows(files: Seq<FileModel>, f: FileModel, h: HunkModel)
    ensures
        files_text(files.push(f.with_hunk(h))) == files_text(files.push(f)) + hunk_text(h),
{
    let g = f.with_hunk(h);
    assert(files.push(g).drop_last() =~= files);
    assert(files.push(f).drop_last() =~= files);
    assert(g.hunks.drop_last() =~= f.hunks);
    assert(g.hunks.last() == h);
    assert(files_text(files.push(g)) =~= files_text(files.push(f)) + hunk_text(h));
}

/// What has been read of a patch: the hunks of the files and the open one are the
/// lines that are shown of it, and the open one starts with the last header.
proof fn lemma_shown(lines: Seq<Seq<char>>)
    requires
        starts_with_file(lines),
    ensures
        ({
            let s = after_lines(lines);
            let h = last_header(lines);
            &&& files_text(s.with_file()) + open_text(s.hunk) == shown_of(lines)
            &&& 0 <= h <= lines.len()
            &&& s.hunk is Some <==> h < lines.len()
            &&& s.hunk is Some ==> s.file is Some
            &&& s.hunk is Some ==> files_text(s.with_file()) == shown_of(lines.take(h))
            &&& s.hunk is None ==> s.with_file().len() == 0 || files_text(s.with_file()) == Seq::<Seq<char>>::empty()
            &&& s.file is Some <==> exists|d: int| 0 <= d < lines.len() && starts_file(#[trigger] lines[d])
        }),
    decreases lines.len(),
{
    let s = after_lines(lines);
    if lines.len() == 0 {
        assert(files_text(s.with_file()) + open_text(s.hunk) =~= shown_of(lines));
    } else {
        let (init, line) = (lines.drop_last(), lines.last());
        let t = after_lines(init);
        assert(starts_with_file(init)) by {
            assert forall|i: int|
                0 <= i < init.len() && "@@"@.is_prefix_of(#[trigger] init[i]) implies exists|d: int|
                0 <= d < i && starts_file(#[trigger] init[d]) by {
                assert(init[i] == lines[i]);
                let d = choose|d: int| 0 <= d < i && starts_file(#[trigger] lines[d]);
                assert(init[d] == lines[d]);
            }
        }
        lemma_shown(init);
        lemma_prefixes(line);
        let h = last_header(lines);
        assert(lines[lines.len() - 1] == line);
        assert(s.file is Some <==> exists|d: int| 0 <= d < lines.len() && starts_file(#[trigger] lines[d])) by {
            if t.file is Some {
                let d = choose|d: int| 0 <= d < init.len() && starts_file(#[trigger] init[d]);
                assert(lines[d] == init[d]);
            }
            if exists|d: int| 0 <= d < lines.len() && starts_file(#[trigger] lines[d]) {
                let d = choose|d: int| 0 <= d < lines.len() && starts_file(#[trigger] lines[d]);
                if d < lines.len() - 1 {
                    assert(init[d] == lines[d]);
                }
            }
        }
        if h < lines.len() - 1 {
            assert(lines.take(h) =~= init.take(h));
        } else {
            assert(lines.take(lines.len() - 1) =~= init);
        }
        if begins(line, "diff --git "@) {
            let f = s.file.unwrap();
            assert(s.with_file().drop_last() =~= t.with_file());
            assert(hunks_text(f.hunks) =~= Seq::empty());
            assert(files_text(s.with_file()) =~= files_text(t.with_file()));
        } else if begins(line, "--- "@) || begins(line, "+++ "@) {
            if t.file is Some {
                assert(s.with_file().drop_last() =~= t.with_file().drop_last());
                assert(s.file.unwrap().hunks == t.file.unwrap().hunks);
            }
        } else if is_metadata(line) {
        } else if begins(line, "@@"@) {
            let d = choose|d: int| 0 <= d < lines.len() - 1 && starts_file(#[trigger] lines[d]);
            assert(init[d] == lines[d]);
            assert(t.file is Some);
            if t.hunk is Some {
                lemma_file_grows(t.files, t.file.unwrap(), t.hunk.unwrap());
            } else {
                assert(files_text(t.with_file()) + open_text(t.hunk) =~= files_text(t.with_file()));
            }
            let hunk = s.hunk.unwrap();
            assert(hunk_text(hunk) =~= seq![line]);
            assert(files_text(s.with_file()) == shown_of(init));
            assert(files_text(s.with_file()) + open_text(s.hunk) =~= shown_of(init).push(line));
        } else {
            if t.hunk is Some && is_signed(line) {
                let (was, now) = (t.hunk.unwrap(), s.hunk.unwrap());
                assert(signed(now.lines.last()) =~= line);
                assert(hunk_text(now) =~= hunk_text(was).push(line));
                assert(files_text(s.with_file()) + open_text(s.hunk) =~= shown_of(init).push(line));
            }
            if t.hunk is Some {
                assert(shown_of(init).len() > 0);
            } else {
                assert(files_text(t.with_file()) + open_text(t.hunk) =~= Seq::<Seq<char>>::empty());
            }
        }
    }
}

/// No hunk of a patch is lost, doubled or moved: the hunks of its files, one after
/// the other and each with its header and its lines, are the lines that are shown
/// of the patch, as long as no hunk comes before the first file.
pub proof fn hunks_are_kept(content: Seq<char>)
    requires
        starts_with_file(lines_of(content)),
    ensures
        files_text(patch_files(content)) == shown_of(lines_of(content)),
{
    let lines = lines_of(content);
    lemma_shown(lines);
    let s = after_lines(lines);
    if s.hunk is Some {
        lemma_file_grows(s.files, s.file.unwrap(), s.hunk.unwrap());
    } else {
        assert(files_text(s.with_file()) + open_text(s.hunk) =~= files_text(s.with_file()));
    }
}

/// Whether hunks start with a header, and none of their lines carries a number.
pub open spec fn are_headed(hunks: Seq<HunkModel>) -> bool {
    &&& forall|h: int| 0 <= h < hunks.len() ==> "@@"@.is_prefix_of((#[trigger] hunks[h]).header)
    &&& forall|h: int, k: int|
        0 <= h < hunks.len() && 0 <= k < hunks[h].lines.len() ==> (
        #[trigger] hunks[h].lines[k]).old_line is None && hunks[h].lines[k].new_line is None
}

proof fn lemma_headed(lines: Seq<Seq<char>>)
    ensures
        ({
            let s = after_lines(lines);
            &&& forall|f: int| 0 <= f < s.files.len() ==> are_headed((#[trigger] s.files[f]).hunks)
            &&& s.file matches Some(f) ==> are_headed(f.hunks)
            &&& s.hunk matches Some(h) ==> are_headed(seq![h])
        }),
    decreases lines.len(),
{
    if lines.len() > 0 {
        let (t, s) = (after_lines(lines.drop_last()), after_lines(lines));
        lemma_headed(lines.drop_last());
        lemma_prefixes(lines.last());
        if let Some(h) = s.hunk {
            if let Some(was) = t.hunk {
                assert(seq![was][0] == was);
                assert forall|k: int| 0 <= k < was.lines.len() implies (
                #[trigger] was.lines[k]).old_line is None && was.lines[k].new_line is None by {
                    assert(seq![was][0].lines[k].old_line is None);
                }
            }
            assert forall|j: int, k: int| 0 <= j < 1 && 0 <= k < seq![h][j].lines.len() implies (
            #[trigger] seq![h][j].lines[k]).old_line is None && seq![h][j].lines[k].new_line is None by {}
        }
        if t.file is Some && t.hunk is Some {
            lemma_headed_grows(t.file.unwrap(), t.hunk.unwrap());
        }
    }
}

proof fn lemma_headed_grows(f: FileModel, h: HunkModel)
    requires
        are_headed(f.hunks),
        are_headed(seq![h]),
    ensures
        are_headed(f.with_hunk(h).hunks),
{
    let all = f.with_hunk(h).hunks;
    assert(seq![h][0] == h);
    assert forall|j: int| 0 <= j < all.len() implies "@@"@.is_prefix_of((#[trigger] all[j]).header) by {
        if j < f.hunks.len() {
            assert(all[j] == f.hunks[j]);
        }
    }
    assert forall|j: int, k: int| 0 <= j < all.len() && 0 <= k < all[j].lines.len() implies (
    #[trigger] all[j].lines[k]).old_line is None && all[j].lines[k].new_line is None by {
        if j < f.hunks.len() {
            assert(f.hunks[j].lines[k].old_line is None);
        } else {
            assert(seq![h][0].lines[k].old_line is None);
        }
    }
}

/// Every hunk of a patch starts with its header.
pub proof fn hunks_are_headed(content: Seq<char>, f: int)
    requires
        0 <= f < patch_files(content).len(),
    ensures
        are_headed(patch_files(content)[f].hunks),
{
    let s = after_lines(lines_of(content));
    lemma_headed(lines_of(content));
    if s.file is Some && s.hunk is Some {
        lemma_headed_grows(s.file.unwrap(), s.hunk.unwrap());
    }
}

/// How many of the lines start a file.
pub open spec fn files_started(lines: Seq<Seq<char>>) -> int {
    lines.filter(|l: Seq<char>| starts_file(l)).len() as int
}

proof fn lemma_files_started(lines: Seq<Seq<char>>)
    ensures
        after_lines(lines).with_file().len() == files_started(lines),
        after_lines(lines).file is None ==> after_lines(lines).files.len() == 0,
    decreases lines.len(),
{
    reveal(Seq::filter);
    if lines.len() > 0 {
        lemma_files_started(lines.drop_last());
        lemma_prefixes(lines.last());
    }
}

/// Once a file has started, the files before it stay as they are.
proof fn lemma_files_stay(lines: Seq<Seq<char>>, d: int)
    requires
        0 <= d < lines.len(),
        starts_file(lines[d]),
    ensures
        ({
            let before = after_lines(lines.take(d)).with_file();
            let s = after_lines(lines);
            &&& s.file is Some
            &&& before.len() <= s.files.len()
            &&& s.files.take(before.len() as int) == before
        }),
    decreases lines.len(),
{
    let before = after_lines(lines.take(d)).with_file();
    let (init, line) = (lines.drop_last(), lines.last());
    let (t, s) = (after_lines(init), after_lines(lines));
    lemma_prefixes(line);
    if d == lines.len() - 1 {
        assert(lines.take(d) =~= init);
        assert(s.files.take(before.len() as int) =~= before);
    } else {
        assert(init.take(d) =~= lines.take(d));
        lemma_files_stay(init, d);
        assert(s.files.take(before.len() as int) =~= t.files.take(before.len() as int));
    }
}

/// Hunks stay with their files: the files before one that starts at line `d` have
/// the lines that are shown up to the last hunk header before it. The hunk of that
/// header is still open there, and goes to the file that starts.
pub proof fn hunks_stay_with_their_file(content: Seq<char>, d: int)
    requires
        starts_with_file(lines_of(content)),
        0 <= d < lines_of(content).len(),
        starts_file(lines_of(content)[d]),
    ensures
        ({
            let before = lines_of(content).take(d);
            let f = files_started(before);
            &&& f < patch_files(content).len()
            &&& files_text(patch_files(content).take(f)) == shown_of(before.take(last_header(before)))
        }),
{
    let lines = lines_of(content);
    let before = lines.take(d);
    assert(starts_with_file(before)) by {
        assert forall|i: int|
            0 <= i < before.len() && "@@"@.is_prefix_of(#[trigger] before[i]) implies exists|d: int|
            0 <= d < i && starts_file(#[trigger] before[d]) by {
            assert(before[i] == lines[i]);
            let d = choose|d: int| 0 <= d < i && starts_file(#[trigger] lines[d]);
            assert(before[d] == lines[d]);
        }
    }
    lemma_shown(before);
    lemma_files_started(before);
    lemma_files_stay(lines, d);
    let s = after_lines(before);
    assert(patch_files(content).take(files_started(before)) =~= s.with_file());
    if s.hunk is None {
        assert(before.take(last_header(before)) =~= before);
        assert(files_text(s.with_file()) + open_text(s.hunk) =~= files_text(s.with_file()));
    }
}

/// The file that started at line `d`, as far as it has been read.
spec fn file_from(lines: Seq<Seq<char>>, d: int) -> FileModel {
    after_lines(lines).with_file()[files_started(lines.take(d))]
}

/// Whether the path on a line that names a side is known: it follows the prefix, and
/// has no prefix of its own.
pub open spec fn is_plain(path: Seq<char>, one: Seq<char>, other: Seq<char>) -> bool {
    !one.is_prefix_of(path) && !other.is_prefix_of(path)
}

proof fn lemma_stripped(path: Seq<char>, side: Seq<char>, one: Seq<char>, other: Seq<char>)
    requires
        one.len() == 2,
        other.len() == 2,
        one[0] != other[0],
        side == one || side == other || side.len() == 0,
        is_plain(path, one, other),
    ensures
        without_leading(without_leading(side + path, one), other) == path,
{
    let s = side + path;
    lemma_prefix(path, one);
    lemma_prefix(path, other);
    assert(s.take(side.len() as int) =~= side);
    assert(s.skip(side.len() as int) =~= path);
    reveal_with_fuel(without_leading, 2);
    if side == other {
        lemma_begins_first(s, one);
        assert(s[0] == other[0]);
    } else if side.len() == 0 {
        assert(s =~= path);
    }
}

/// The file that started at line `d` keeps its path, and its old path once it has
/// one.
proof fn lemma_file_from(lines: Seq<Seq<char>>, d: int)
    requires
        0 <= d < lines.len() - 1,
        starts_file(lines[d]),
    ensures
        ({
            let (was, now) = (file_from(lines.drop_last(), d), file_from(lines, d));
            let line = lines.last();
            let later = starts_file(line) || exists|i: int| d < i < lines.len() - 1 && starts_file(#[trigger] lines[i]);
            &&& was.path != "unknown"@ ==> now.path == was.path
            &&& later || was.old_path is Some ==> now.old_path == was.old_path
            &&& !"--- "@.is_prefix_of(line) ==> now.old_path == was.old_path
            &&& !later && was.old_path is None && "--- "@.is_prefix_of(line) ==> now.old_path == (if old_path_on(
                line,
            ) != "/dev/null"@ {
                Some(old_path_on(line))
            } else {
                None
            })
        }),
{
    let init = lines.drop_last();
    let line = lines.last();
    let f = files_started(lines.take(d));
    let (t, s) = (after_lines(init), after_lines(lines));
    lemma_prefixes(line);
    assert(init.take(d) =~= lines.take(d));
    assert(init[d] == lines[d]);
    lemma_files_stay(init, d);
    lemma_files_stay(lines, d);
    lemma_files_started(lines.take(d));
    lemma_files_started(init);
    lemma_files_started(lines);
    if f < t.files.len() {
        assert(t.with_file()[f] == t.files[f]);
        assert(s.with_file()[f] == t.files[f]);
        if forall|i: int| d < i < lines.len() - 1 ==> !starts_file(#[trigger] lines[i]) {
            assert forall|i: int| d < i < init.len() implies !starts_file(#[trigger] init[i]) by {
                assert(init[i] == lines[i]);
            }
            lemma_none_started(init, d, init.len() as int);
            assert(init.take(init.len() as int) =~= init);
        }
    } else {
        assert(f == t.files.len());
        assert(t.with_file()[f] == t.file.unwrap());
        if exists|i: int| d < i < lines.len() - 1 && starts_file(#[trigger] lines[i]) {
            let i = choose|i: int| d < i < lines.len() - 1 && starts_file(#[trigger] lines[i]);
            assert(init[i] == lines[i]);
            lemma_files_stay(init, i);
            lemma_files_started(init.take(i));
            lemma_more_started(init, d, i);
        }
    }
}

/// A file that starts at `d` counts among those that start before `i`.
proof fn lemma_more_started(lines: Seq<Seq<char>>, d: int, i: int)
    requires
        0 <= d < i <= lines.len(),
        starts_file(lines[d]),
    ensures
        files_started(lines.take(d)) < files_started(lines.take(i)),
    decreases i,
{
    reveal(Seq::filter);
    assert(lines.take(i).drop_last() =~= lines.take(i - 1));
    assert(lines.take(i).last() == lines[i - 1]);
    if d < i - 1 {
        lemma_more_started(lines, d, i - 1);
    }
}

/// Where no other file starts, the one that starts at `d` is the last.
proof fn lemma_none_started(lines: Seq<Seq<char>>, d: int, i: int)
    requires
        0 <= d < i <= lines.len(),
        starts_file(lines[d]),
        forall|j: int| d < j < lines.len() ==> !starts_file(#[trigger] lines[j]),
    ensures
        files_started(lines.take(i)) == files_started(lines.take(d)) + 1,
    decreases i,
{
    reveal(Seq::filter);
    assert(lines.take(i).drop_last() =~= lines.take(i - 1));
    assert(lines.take(i).last() == lines[i - 1]);
    if d < i - 1 {
        lemma_none_started(lines, d, i - 1);
    }
}

proof fn lemma_path_kept(lines: Seq<Seq<char>>, d: int, k: int, side: Seq<char>, path: Seq<char>)
    requires
        0 <= d < k <= lines.len(),
        starts_file(lines[d]),
        words_of(lines[d]).len() >= 4,
        words_of(lines[d])[3] == side + path,
        side == "b/"@ || side == "w/"@ || side.len() == 0,
        is_plain(path, "b/"@, "w/"@),
        path != "unknown"@,
    ensures
        file_from(lines.take(k), d).path == path,
    decreases k,
{
    let upto = lines.take(k);
    assert(upto.take(d) =~= lines.take(d));
    assert(upto.drop_last() =~= lines.take(k - 1));
    assert(upto.last() == lines[k - 1]);
    if d < k - 1 {
        lemma_path_kept(lines, d, k - 1, side, path);
        lemma_file_from(upto, d);
    } else {
        reveal_strlit("b/");
        reveal_strlit("w/");
        lemma_stripped(path, side, "b/"@, "w/"@);
        lemma_prefixes(lines[d]);
        lemma_files_started(lines.take(d));
        assert(after_lines(upto).with_file().last().path == path);
        assert(upto.drop_last() =~= lines.take(d));
    }
}

/// A file has the path that the fourth word of its first line names, without the
/// prefix `b/` or `w/` of the new side if it has one, as long as the path does not start
/// with such a prefix itself.
pub proof fn file_has_the_started_path(content: Seq<char>, d: int, side: Seq<char>, path: Seq<char>)
    requires
        0 <= d < lines_of(content).len(),
        starts_file(lines_of(content)[d]),
        words_of(lines_of(content)[d]).len() >= 4,
        words_of(lines_of(content)[d])[3] == side + path,
        side == "b/"@ || side == "w/"@ || side.len() == 0,
        is_plain(path, "b/"@, "w/"@),
        path != "unknown"@,
    ensures
        patch_files(content)[files_started(lines_of(content).take(d))].path == path,
{
    let lines = lines_of(content);
    lemma_path_kept(lines, d, lines.len() as int, side, path);
    assert(lines.take(lines.len() as int) =~= lines);
    lemma_finished(lines, d);
}

/// The last hunk changes neither path of a file.
proof fn lemma_finished(lines: Seq<Seq<char>>, d: int)
    requires
        0 <= d < lines.len(),
        starts_file(lines[d]),
    ensures
        ({
            let f = files_started(lines.take(d));
            let all = after_lines(lines).finished();
            &&& f < all.len()
            &&& all[f].path == file_from(lines, d).path
            &&& all[f].old_path == file_from(lines, d).old_path
        }),
{
    lemma_files_stay(lines, d);
    lemma_files_started(lines.take(d));
    lemma_files_started(lines);
}

/// Where the section of the file that starts at line `d` ends: at the next line that
/// starts a file, or at the end.
pub open spec fn is_section(lines: Seq<Seq<char>>, d: int, e: int) -> bool {
    &&& 0 <= d < e <= lines.len()
    &&& starts_file(lines[d])
    &&& forall|i: int| d < i < e ==> !starts_file(#[trigger] lines[i])
    &&& e < lines.len() ==> starts_file(lines[e])
}

proof fn lemma_old_path(lines: Seq<Seq<char>>, d: int, e: int, i: int, k: int)
    requires
        is_section(lines, d, e),
        d < i <= e,
        i < e ==> "--- "@.is_prefix_of(lines[i]) && old_path_on(lines[i]) != "/dev/null"@,
        forall|j: int| d < j < i && "--- "@.is_prefix_of(#[trigger] lines[j]) ==> old_path_on(lines[j]) == "/dev/null"@,
        d < k <= lines.len(),
    ensures
        file_from(lines.take(k), d).old_path == (if i < e && i < k { Some(old_path_on(lines[i])) } else { None }),
    decreases k,
{
    let upto = lines.take(k);
    assert(upto.take(d) =~= lines.take(d));
    assert(upto.drop_last() =~= lines.take(k - 1));
    assert(upto.last() == lines[k - 1]);
    lemma_prefixes(lines[k - 1]);
    if d < k - 1 {
        lemma_old_path(lines, d, e, i, k - 1);
        lemma_file_from(upto, d);
        let line = lines[k - 1];
        if k - 1 < e {
            assert(!starts_file(lines[k - 1]));
            assert forall|j: int| d < j < upto.len() - 1 implies !starts_file(#[trigger] upto[j]) by {
                assert(upto[j] == lines[j]);
            }
        } else if k - 1 > e {
            assert(upto[e] == lines[e]);
        }
    } else {
        lemma_files_started(lines.take(d));
        assert(after_lines(upto).with_file().last().old_path is None);
    }
}

/// A file has the old path that the first line `--- ` of its section names, without the
/// prefix `a/` or `i/` of the old side if it has one, and none if all such lines name
/// `/dev/null`.
pub proof fn file_has_the_named_old_path(
    content: Seq<char>,
    d: int,
    e: int,
    i: int,
    side: Seq<char>,
    path: Seq<char>,
)
    requires
        is_section(lines_of(content), d, e),
        d < i <= e,
        i < e ==> {
            &&& "--- "@.is_prefix_of(lines_of(content)[i])
            &&& trimmed(lines_of(content)[i].skip(4)) == side + path
            &&& side == "a/"@ || side == "i/"@ || side.len() == 0
            &&& is_plain(path, "a/"@, "i/"@)
            &&& path != "/dev/null"@
        },
        forall|j: int|
            d < j < i && "--- "@.is_prefix_of(#[trigger] lines_of(content)[j]) ==> trimmed(
                lines_of(content)[j].skip(4),
            ) == "/dev/null"@,
    ensures
        patch_files(content)[files_started(lines_of(content).take(d))].old_path == (if i < e {
            Some(path)
        } else {
            None
        }),
{
    let lines = lines_of(content);
    reveal_strlit("a/");
    reveal_strlit("i/");
    reveal_strlit("/dev/null");
    if i < e {
        lemma_stripped(path, side, "a/"@, "i/"@);
    }
    assert forall|j: int| d < j < i && "--- "@.is_prefix_of(#[trigger] lines[j]) implies old_path_on(lines[j])
        == "/dev/null"@ by {
        lemma_begins_first("/dev/null"@, "a/"@);
        lemma_begins_first("/dev/null"@, "i/"@);
    }
    lemma_old_path(lines, d, e, i, lines.len() as int);
    assert(lines.take(lines.len() as int) =~= lines);
    lemma_finished(lines, d);
}

/// The lines of hunks are counted one by one: those of two lists of hunks together,
/// and each line of a hunk for its own kind only.
pub proof fn counts_add_up(
    a: Seq<HunkModel>,
    b: Seq<HunkModel>,
    h: HunkModel,
    l: LineModel,
    kind: DiffLineType,
)
    ensures
        count_of(a + b, kind) == count_of(a, kind) + count_of(b, kind),
        count_of(seq![HunkModel { lines: h.lines.push(l), ..h }], kind) == count_of(seq![h], kind) + (if l.kind
            == kind {
            1int
        } else {
            0int
        }),
        count_of(seq![HunkModel { lines: Seq::empty(), ..h }], kind) == 0,
    decreases b.len(),
{
    reveal(Seq::filter);
    let (one, more) = (seq![h], seq![HunkModel { lines: h.lines.push(l), ..h }]);
    let none = seq![HunkModel { lines: Seq::empty(), ..h }];
    assert(one.drop_last() =~= Seq::empty());
    assert(more.drop_last() =~= Seq::empty());
    assert(none.drop_last() =~= Seq::empty());
    assert(h.lines.push(l).drop_last() =~= h.lines);
    reveal_with_fuel(count_of, 2);
    if b.len() == 0 {
        assert(a + b =~= a);
    } else {
        counts_add_up(a, b.drop_last(), h, l, kind);
        assert((a + b).drop_last() =~= a + b.drop_last());
        assert((a + b).last() == b.last());
    }
}

// ---- What comparing promises -------------------------------------------------

/// The lines that two texts are compared by, with their line ends, make up the text.
pub proof fn lines_make_up_the_text(s: Seq<char>)
    ensures
        s.len() == 0 ==> whole_lines(s).len() == 0,
        s.len() > 0 ==> whole_lines(s).len() > 0 && {
            let first = whole_lines(s)[0];
            &&& first.len() > 0
            &&& first.is_prefix_of(s)
            &&& whole_lines(s).skip(1) == whole_lines(s.skip(first.len() as int))
            &&& first.len() < s.len() ==> first.last() == '\n' || first.last() == '\r'
            &&& forall|i: int|
                0 <= i < first.len() - 1 && (#[trigger] first[i] == '\n' || first[i] == '\r') ==> i == first.len() - 2
                    && first[i] == '\r' && first.last() == '\n'
        },
{
    if s.len() > 0 {
        lemma_line_span(s);
        lemma_span_ends(s);
        let n = line_span(s) as int;
        assert(whole_lines(s)[0] == s.take(n));
        assert(whole_lines(s).skip(1) =~= whole_lines(s.skip(n)));
        assert(s.take(n) =~= s.subrange(0, n));
    }
}

proof fn lemma_span_ends(s: Seq<char>)
    requires
        s.len() > 0,
    ensures
        ({
            let n = line_span(s) as int;
            &&& 0 < n <= s.len()
            &&& n < s.len() ==> s[n - 1] == '\n' || s[n - 1] == '\r'
            &&& forall|i: int|
                0 <= i < n - 1 && (#[trigger] s[i] == '\n' || s[i] == '\r') ==> i == n - 2 && s[i] == '\r' && s[n - 1]
                    == '\n'
        }),
    decreases s.len(),
{
    lemma_line_span(s);
    if s[0] != '\n' && s[0] != '\r' && s.len() > 1 {
        let t = s.skip(1);
        lemma_span_ends(t);
        let n = line_span(s) as int;
        assert(s[n - 1] == t[n - 2]);
        assert forall|i: int| 0 <= i < n - 1 && (#[trigger] s[i] == '\n' || s[i] == '\r') implies i == n - 2 && s[i]
            == '\r' && s[n - 1] == '\n' by {
            assert(s[i] == t[i - 1]);
        }
    }
}

proof fn lemma_counts(lines: Seq<LineModel>, kind: DiffLineType)
    ensures
        count_in(lines, kind) + lines.filter(|l: LineModel| l.kind != kind).len() == lines.len(),
    decreases lines.len(),
{
    reveal(Seq::filter);
    if lines.len() > 0 {
        lemma_counts(lines.drop_last(), kind);
    }
}

/// The header of a hunk gives for each side where its first line is, and how many of its
/// lines are there: all but the added ones in the old text, all but the removed ones in
/// the new text.
pub proof fn header_counts_the_lines(lines: Seq<LineModel>)
    requires
        lines.len() > 0,
    ensures
        ({
            let old_lines = lines.filter(|l: LineModel| l.kind != DiffLineType::Add).len();
            let new_lines = lines.filter(|l: LineModel| l.kind != DiffLineType::Remove).len();
            let old_start = match lines[0].old_line {
                Some(n) => n as nat,
                None => 1,
            };
            let new_start = match lines[0].new_line {
                Some(n) => n as nat,
                None => 1,
            };
            hunk_header(lines) == seq!['@', '@', ' ', '-'] + decimal(old_start) + seq![','] + decimal(old_lines)
                + seq![' ', '+'] + decimal(new_start) + seq![','] + decimal(new_lines) + seq![' ', '@', '@']
        }),
{
    lemma_counts(lines, DiffLineType::Add);
    lemma_counts(lines, DiffLineType::Remove);
    reveal_strlit("@@ -");
    reveal_strlit(",");
    reveal_strlit(" +");
    reveal_strlit(" @@");
    assert("@@ -"@ =~= seq!['@', '@', ' ', '-']);
    assert(","@ =~= seq![',']);
    assert(" +"@ =~= seq![' ', '+']);
    assert(" @@"@ =~= seq![' ', '@', '@']);
}

/// Each change is shown as a line of its kind, with its text and its numbers, which count
/// from 1; each group as a hunk, in order.
pub proof fn changes_are_shown(groups: Seq<Seq<ChangeModel>>, g: int, k: int)
    requires
        0 <= g < groups.len(),
        0 <= k < groups[g].len(),
        is_numbered(groups[g][k]),
    ensures
        ({
            let (c, l) = (groups[g][k], shown_hunks(groups)[g].lines[k]);
            &&& shown_hunks(groups).len() == groups.len()
            &&& shown_hunks(groups)[g].lines.len() == groups[g].len()
            &&& l.content == c.value
            &&& l.kind == DiffLineType::Add <==> c.tag == LineTag::Insert
            &&& l.kind == DiffLineType::Remove <==> c.tag == LineTag::Delete
            &&& c.old_index matches Some(i) ==> l.old_line == Some((i + 1) as usize)
            &&& c.new_index matches Some(j) ==> l.new_line == Some((j + 1) as usize)
            &&& c.old_index is None ==> l.old_line is None
            &&& c.new_index is None ==> l.new_line is None
        }),
{
}

/// A file that its first line does not name is named by the first line `+++ b/..` that
/// names one.
pub proof fn unnamed_file_is_named_later(lines: Seq<Seq<char>>, line: Seq<char>, path: Seq<char>)
    requires
        after_lines(lines).file is Some,
        after_lines(lines).file.unwrap().path == "unknown"@,
        "+++ "@.is_prefix_of(line),
        trimmed(line.skip(4)) == "b/"@ + path,
        is_plain(path, "b/"@, "w/"@),
        path != "/dev/null"@,
    ensures
        after_lines(lines.push(line)).file.unwrap().path == path,
{
    reveal_strlit("b/");
    reveal_strlit("w/");
    lemma_prefixes(line);
    lemma_stripped(path, "b/"@, "b/"@, "w/"@);
    assert(lines.push(line).drop_last() =~= lines);
}

}

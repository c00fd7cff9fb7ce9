//! Where notes are kept: one file per annotated source file, in the directory
//! `.sidecar` at the root of the repository.

use crate::notes::{
    canon_lines, canonical_lines, coords, models, revalidate, revalidation_is_stable, Note, NoteModel,
    Position,
};
use crate::text::{
    byte_len_is_utf8_length, chars_of, ends, ends_with, lemma_byte_len_grows, push_text, same_text, texts,
};
use vstd::prelude::*;
use vstd::utf8::{encode_utf8, encode_utf8_decode_utf8};

verus! {

// ---- File names --------------------------------------------------------------

/// Whether a byte stands for itself in an encoded file name.
pub open spec fn is_plain(b: u8) -> bool {
    48 <= b <= 57 || 65 <= b <= 90 || 97 <= b <= 122 || b == 45 || b == 46 || b == 95
}

/// The upper-case hexadecimal digit for `d`.
pub open spec fn hex_digit(d: u8) -> char {
    if d < 10 { (48 + d) as u8 as char } else { (55 + d) as u8 as char }
}

/// How a byte is written in a file name.
pub open spec fn encoded_byte(b: u8) -> Seq<char> {
    if is_plain(b) {
        seq![b as char]
    } else {
        seq!['%', hex_digit(b / 16), hex_digit(b % 16)]
    }
}

/// How a run of bytes is written in a file name.
pub open spec fn encoded_bytes(s: Seq<u8>) -> Seq<char>
    decreases s.len(),
{
    if s.len() == 0 {
        Seq::empty()
    } else {
        encoded_byte(s[0]) + encoded_bytes(s.skip(1))
    }
}

/// A path as a single file name: letters, digits, `.`, `-` and `_` as they are,
/// every other byte as `%` and two hexadecimal digits.
pub open spec fn encoded(rel: Seq<char>) -> Seq<char> {
    encoded_bytes(encode_utf8(rel))
}

fn hex(d: u8) -> (c: char)
    requires
        d < 16,
    ensures
        c == hex_digit(d),
{
    if d < 10 {
        (48 + d) as char
    } else {
        (55 + d) as char
    }
}

/// Percent-encodes a repository-relative path into a single, filesystem-safe
/// file name.
pub fn encode_filename(rel: &str) -> (out: String)
    ensures
        out@ == encoded(rel@),
{
    let bytes = rel.as_bytes();
    let mut out = String::new();
    let mut i: usize = 0;
    assert(bytes@.skip(0) =~= bytes@);
    while i < bytes.len()
        invariant
            i <= bytes@.len(),
            out@ + encoded_bytes(bytes@.skip(i as int)) == encoded_bytes(bytes@),
        decreases bytes@.len() - i,
    {
        let b = bytes[i];
        let ghost before = out@;
        if (b >= 48 && b <= 57) || (b >= 65 && b <= 90) || (b >= 97 && b <= 122) || b == 45 || b == 46
            || b == 95 {
            out.push(b as char);
        } else {
            out.push('%');
            out.push(hex(b / 16));
            out.push(hex(b % 16));
        }
        proof {
            assert(bytes@.skip(i as int).skip(1) =~= bytes@.skip(i + 1));
            assert(out@ =~= before + encoded_byte(b));
            assert(out@ + encoded_bytes(bytes@.skip(i + 1)) =~= before + encoded_bytes(
                bytes@.skip(i as int),
            ));
        }
        i += 1;
    }
    assert(out@ =~= encoded_bytes(bytes@));
    out
}

/// A byte is read back from how it is written.
proof fn lemma_encoded_byte(a: u8, b: u8)
    ensures
        encoded_byte(a).len() >= 1,
        encoded_byte(a)[0] == '%' <==> !is_plain(a),
        encoded_byte(a) == encoded_byte(b) ==> a == b,
        forall|i: int| 0 <= i < encoded_byte(a).len() ==> is_safe(#[trigger] encoded_byte(a)[i]),
{
    if encoded_byte(a) == encoded_byte(b) {
        assert(encoded_byte(a)[0] == encoded_byte(b)[0]);
        if !is_plain(a) {
            assert(encoded_byte(a)[1] == encoded_byte(b)[1]);
            assert(encoded_byte(a)[2] == encoded_byte(b)[2]);
        }
    }
}

proof fn lemma_encoded_bytes_injective(a: Seq<u8>, b: Seq<u8>)
    requires
        encoded_bytes(a) == encoded_bytes(b),
    ensures
        a == b,
    decreases a.len(),
{
    if a.len() > 0 {
        lemma_encoded_byte(a[0], a[0]);
        assert(encoded_bytes(a).len() > 0);
    }
    if b.len() > 0 {
        lemma_encoded_byte(b[0], b[0]);
        assert(encoded_bytes(b).len() > 0);
    }
    if a.len() > 0 && b.len() > 0 {
        let (x, y) = (encoded_byte(a[0]), encoded_byte(b[0]));
        let (u, v) = (encoded_bytes(a.skip(1)), encoded_bytes(b.skip(1)));
        assert((x + u)[0] == x[0] && (y + v)[0] == y[0]);
        assert(x.len() == y.len());
        assert((x + u).take(x.len() as int) =~= x);
        assert((y + v).take(x.len() as int) =~= y);
        assert((x + u).skip(x.len() as int) =~= u);
        assert((y + v).skip(x.len() as int) =~= v);
        lemma_encoded_byte(a[0], b[0]);
        lemma_encoded_bytes_injective(a.skip(1), b.skip(1));
        assert(a =~= seq![a[0]] + a.skip(1));
        assert(b =~= seq![b[0]] + b.skip(1));
    } else {
        assert(a =~= b);
    }
}

/// Different paths are written as different file names.
pub proof fn encoding_is_injective(a: Seq<char>, b: Seq<char>)
    requires
        encoded(a) == encoded(b),
    ensures
        a == b,
{
    lemma_encoded_bytes_injective(encode_utf8(a), encode_utf8(b));
    encode_utf8_decode_utf8(a);
    encode_utf8_decode_utf8(b);
}

/// Whether a character may stand in an encoded file name.
pub open spec fn is_safe(c: char) -> bool {
    c == '%' || ('0' <= c && c <= '9') || ('A' <= c && c <= 'Z') || ('a' <= c && c <= 'z') || c == '-'
        || c == '.' || c == '_'
}

proof fn lemma_encoded_bytes_safe(s: Seq<u8>)
    ensures
        forall|i: int| 0 <= i < encoded_bytes(s).len() ==> is_safe(#[trigger] encoded_bytes(s)[i]),
        encoded_bytes(s).len() >= s.len(),
    decreases s.len(),
{
    if s.len() > 0 {
        lemma_encoded_byte(s[0], s[0]);
        lemma_encoded_bytes_safe(s.skip(1));
    }
}

/// An encoded file name holds letters, digits, `%`, `-`, `.` and `_` alone: no
/// separator among them.
pub proof fn encoding_is_safe(rel: Seq<char>)
    ensures
        forall|i: int| 0 <= i < encoded(rel).len() ==> is_safe(#[trigger] encoded(rel)[i]),
{
    lemma_encoded_bytes_safe(encode_utf8(rel));
}

/// The path of the relative path `name` under `base`.
pub open spec fn under(base: Seq<char>, name: Seq<char>) -> Seq<char> {
    if base.len() == 0 || base.last() == '/' {
        base + name
    } else {
        base.push('/') + name
    }
}

/// The path of the relative path `name` under `base`.
pub fn join_path(base: &str, name: &str) -> (r: String)
    ensures
        r@ == under(base@, name@),
{
    let b = chars_of(base);
    let mut r = base.to_string();
    if b.len() > 0 && b[b.len() - 1] != '/' {
        r.push('/');
    }
    push_text(&mut r, name);
    r
}

/// The directory notes are stored under.
pub open spec fn notes_dir(root: Seq<char>) -> Seq<char> {
    under(root, ".sidecar"@)
}

/// The name of the file with the notes of `rel`.
pub open spec fn notes_file(rel: Seq<char>) -> Seq<char> {
    encoded(rel) + ".json"@
}

/// The file with the notes of `rel`.
pub open spec fn notes_path(root: Seq<char>, rel: Seq<char>) -> Seq<char> {
    under(notes_dir(root), notes_file(rel))
}

/// The directory notes are stored under.
pub fn dir(root: &str) -> (r: String)
    ensures
        r@ == notes_dir(root@),
{
    join_path(root, ".sidecar")
}

/// The file with the notes of `rel` (a repository-relative path).
pub fn file_path(root: &str, rel: &str) -> (r: String)
    ensures
        r@ == notes_path(root@, rel@),
{
    let mut name = encode_filename(rel);
    push_text(&mut name, ".json");
    join_path(dir(root).as_str(), name.as_str())
}

/// Whether a file in the notes directory is read: its extension is `json`.
pub open spec fn has_notes_extension(name: Seq<char>) -> bool {
    name.len() > ".json"@.len() && ends(name, ".json"@)
}

/// Whether a file of this name in the notes directory is read.
pub fn is_notes_file(name: &str) -> (r: bool)
    ensures
        r == has_notes_extension(name@),
{
    let n = chars_of(name);
    let tail = chars_of(".json");
    n.len() > tail.len() && ends_with(n.as_slice(), ".json")
}

/// The notes of two paths are kept in two files.
pub proof fn note_files_are_distinct(root: Seq<char>, a: Seq<char>, b: Seq<char>)
    requires
        notes_path(root, a) == notes_path(root, b),
    ensures
        a == b,
{
    let d = notes_dir(root);
    let n = notes_path(root, a).len() - notes_file(a).len();
    let m = notes_path(root, b).len() - notes_file(b).len();
    assert(n == m);
    assert(notes_path(root, a).skip(n) =~= notes_file(a));
    assert(notes_path(root, b).skip(n) =~= notes_file(b));
    assert(notes_file(a).take(encoded(a).len() as int) =~= encoded(a));
    assert(notes_file(b).take(encoded(a).len() as int) =~= encoded(b));
    encoding_is_injective(a, b);
}

/// The file that the notes of a path are saved to is one that is read.
pub proof fn saved_file_is_read(rel: Seq<char>)
    requires
        rel.len() > 0,
    ensures
        has_notes_extension(notes_file(rel)),
{
    lemma_encoded_bytes_safe(encode_utf8(rel));
    byte_len_is_utf8_length(rel);
    lemma_byte_len_grows(rel, 0, rel.len() as int);
    let name = notes_file(rel);
    assert(name.skip(name.len() - ".json"@.len()) =~= ".json"@);
}

// ---- Notes by file -----------------------------------------------------------

/// The notes of one file, as they are stored.
#[derive(Clone, Debug)]
pub struct FileNotes {
    pub path: String,
    pub notes: Vec<Note>,
}

/// A path and its notes.
pub type Page = (Seq<char>, Seq<NoteModel>);

impl View for FileNotes {
    type V = Page;

    open spec fn view(&self) -> Page {
        (self.path@, models(self.notes@))
    }
}

/// The paths and notes of a list of files.
pub open spec fn page_list(v: Seq<FileNotes>) -> Seq<Page> {
    v.map_values(|f: FileNotes| f@)
}

/// The notes by path; of two pages for one path the later counts.
pub open spec fn by_path(pages: Seq<Page>) -> Map<Seq<char>, Seq<NoteModel>>
    decreases pages.len(),
{
    if pages.len() == 0 {
        Map::empty()
    } else {
        by_path(pages.drop_last()).insert(pages.last().0, pages.last().1)
    }
}

/// Whether no path has two pages.
pub open spec fn one_page_each(pages: Seq<Page>) -> bool {
    forall|i: int, j: int| 0 <= i < j < pages.len() ==> (#[trigger] pages[i]).0 != (#[trigger] pages[j]).0
}

proof fn lemma_by_path(pages: Seq<Page>)
    ensures
        forall|p: Seq<char>| #[trigger]
            by_path(pages).contains_key(p) <==> exists|i: int|
                0 <= i < pages.len() && (#[trigger] pages[i]).0 == p,
        one_page_each(pages) ==> forall|i: int|
            0 <= i < pages.len() ==> by_path(pages)[(#[trigger] pages[i]).0] == pages[i].1,
    decreases pages.len(),
{
    if pages.len() > 0 {
        let init = pages.drop_last();
        lemma_by_path(init);
        assert forall|p: Seq<char>| #[trigger] by_path(pages).contains_key(p) <==> exists|i: int|
            0 <= i < pages.len() && (#[trigger] pages[i]).0 == p by {
            if by_path(init).contains_key(p) {
                let i = choose|i: int| 0 <= i < init.len() && (#[trigger] init[i]).0 == p;
                assert(pages[i].0 == p);
            }
            if exists|i: int| 0 <= i < pages.len() && (#[trigger] pages[i]).0 == p {
                let i = choose|i: int| 0 <= i < pages.len() && (#[trigger] pages[i]).0 == p;
                if i < init.len() {
                    assert(init[i].0 == p);
                }
            }
        }
        if one_page_each(pages) {
            assert forall|i: int| 0 <= i < pages.len() implies by_path(pages)[(#[trigger] pages[i]).0]
                == pages[i].1 by {
                if i < init.len() {
                    assert(init[i] == pages[i]);
                }
            }
        }
    }
}

/// Every file's notes, by repository-relative path.
#[derive(Clone, Debug)]
pub struct NoteBook {
    pub files: Vec<FileNotes>,
}

impl View for NoteBook {
    type V = Map<Seq<char>, Seq<NoteModel>>;

    open spec fn view(&self) -> Map<Seq<char>, Seq<NoteModel>> {
        by_path(page_list(self.files@))
    }
}

/// A copy of a list of notes.
pub fn copy_notes(v: &[Note]) -> (r: Vec<Note>)
    ensures
        models(r@) == models(v@),
{
    let mut r: Vec<Note> = Vec::new();
    let mut i: usize = 0;
    while i < v.len()
        invariant
            i <= v@.len(),
            r@.len() == i,
            forall|j: int| 0 <= j < i ==> (#[trigger] r@[j])@ == v@[j]@,
        decreases v@.len() - i,
    {
        r.push(v[i].copy());
        i += 1;
    }
    assert(models(r@) =~= models(v@));
    r
}

impl NoteBook {
    /// Whether every path has one page at most.
    pub open spec fn wf(&self) -> bool {
        one_page_each(page_list(self.files@))
    }

    /// A notebook without notes.
    pub fn empty() -> (r: NoteBook)
        ensures
            r.wf(),
            r@ == Map::<Seq<char>, Seq<NoteModel>>::empty(),
    {
        let r = NoteBook { files: Vec::new() };
        assert(page_list(r.files@) =~= Seq::empty());
        r
    }

    /// The index of the page of `path`.
    fn find(&self, path: &str) -> (r: Option<usize>)
        ensures
            r is None <==> !self@.contains_key(path@),
            r matches Some(i) ==> i < self.files@.len() && self.files@[i as int].path@ == path@,
    {
        let mut i: usize = 0;
        while i < self.files.len()
            invariant
                i <= self.files@.len(),
                forall|j: int| 0 <= j < i ==> (#[trigger] self.files@[j]).path@ != path@,
            decreases self.files@.len() - i,
        {
            if same_text(self.files[i].path.as_str(), path) {
                proof {
                    lemma_by_path(page_list(self.files@));
                    assert(page_list(self.files@)[i as int].0 == path@);
                }
                return Some(i);
            }
            i += 1;
        }
        proof {
            lemma_by_path(page_list(self.files@));
            assert forall|j: int| 0 <= j < page_list(self.files@).len() implies (#[trigger] page_list(
                self.files@,
            )[j]).0 != path@ by {
                assert(self.files@[j].path@ != path@);
            }
        }
        None
    }

    /// The notes of `path`.
    pub fn get(&self, path: &str) -> (r: Option<&Vec<Note>>)
        requires
            self.wf(),
        ensures
            r is Some <==> self@.contains_key(path@),
            r matches Some(v) ==> models(v@) == self@[path@],
    {
        match self.find(path) {
            Some(i) => {
                proof {
                    lemma_by_path(page_list(self.files@));
                    assert(page_list(self.files@)[i as int] == self.files@[i as int]@);
                }
                Some(&self.files[i].notes)
            },
            None => None,
        }
    }

    /// Sets the notes of `path`.
    pub fn insert(&mut self, path: &str, notes: Vec<Note>)
        requires
            old(self).wf(),
        ensures
            final(self).wf(),
            final(self)@ == old(self)@.insert(path@, models(notes@)),
    {
        let ghost before = page_list(self.files@);
        let file = FileNotes { path: path.to_string(), notes };
        let ghost page = file@;
        proof {
            lemma_by_path(before);
        }
        match self.find(path) {
            Some(i) => {
                self.files.set(i, file);
                proof {
                    let after = page_list(self.files@);
                    assert(after =~= before.update(i as int, page));
                    assert(before[i as int].0 == path@);
                    assert(one_page_each(after));
                    lemma_by_path(after);
                    assert forall|p: Seq<char>| #[trigger]
                        by_path(after).contains_key(p) == by_path(before).insert(
                            path@,
                            page.1,
                        ).contains_key(p) by {
                        if by_path(before).contains_key(p) {
                            let k = choose|k: int|
                                0 <= k < before.len() && (#[trigger] before[k]).0 == p;
                            assert(after[k].0 == p);
                        }
                        if by_path(after).contains_key(p) {
                            let k = choose|k: int| 0 <= k < after.len() && (#[trigger] after[k]).0 == p;
                            assert(before[k].0 == p);
                        }
                        assert(after[i as int].0 == path@);
                    }
                    assert forall|p: Seq<char>| by_path(after).contains_key(p) implies #[trigger]
                        by_path(after)[p] == by_path(before).insert(path@, page.1)[p] by {
                        let k = choose|k: int| 0 <= k < after.len() && (#[trigger] after[k]).0 == p;
                        if k != i {
                            assert(before[k] == after[k]);
                        }
                    }
                    assert(by_path(after) =~= by_path(before).insert(path@, page.1));
                }
            },
            None => {
                self.files.push(file);
                proof {
                    let after = page_list(self.files@);
                    assert(after =~= before.push(page));
                    assert(after.drop_last() =~= before);
                    assert forall|i: int, j: int| 0 <= i < j < after.len() implies (#[trigger] after[i]).0
                        != (#[trigger] after[j]).0 by {
                        if j == before.len() {
                            assert(before[i].0 == after[i].0);
                        }
                    }
                }
            },
        }
    }

    /// Takes the notes of `path` out.
    pub fn remove(&mut self, path: &str)
        requires
            old(self).wf(),
        ensures
            final(self).wf(),
            final(self)@ == old(self)@.remove(path@),
    {
        let ghost before = page_list(self.files@);
        proof {
            lemma_by_path(before);
        }
        match self.find(path) {
            Some(i) => {
                let _ = self.files.remove(i);
                proof {
                    let after = page_list(self.files@);
                    assert(after =~= before.remove(i as int));
                    assert(before[i as int].0 == path@);
                    assert forall|k: int| 0 <= k < after.len() implies #[trigger] after[k] == before[if k
                        < i {
                        k
                    } else {
                        k + 1
                    }] by {}
                    assert(one_page_each(after));
                    lemma_by_path(after);
                    assert forall|p: Seq<char>| #[trigger]
                        by_path(after).contains_key(p) == by_path(before).remove(path@).contains_key(p) by {
                        if by_path(before).contains_key(p) && p != path@ {
                            let k = choose|k: int|
                                0 <= k < before.len() && (#[trigger] before[k]).0 == p;
                            let m = if k < i { k } else { k - 1 };
                            assert(after[m].0 == p);
                        }
                        if by_path(after).contains_key(p) {
                            let k = choose|k: int| 0 <= k < after.len() && (#[trigger] after[k]).0 == p;
                            let m = if k < i { k } else { k + 1 };
                            assert(before[m].0 == p);
                        }
                    }
                    assert forall|p: Seq<char>| by_path(after).contains_key(p) implies #[trigger]
                        by_path(after)[p] == by_path(before).remove(path@)[p] by {
                        let k = choose|k: int| 0 <= k < after.len() && (#[trigger] after[k]).0 == p;
                        let m = if k < i { k } else { k + 1 };
                        assert(before[m] == after[k]);
                    }
                    assert(by_path(after) =~= by_path(before).remove(path@));
                }
            },
            None => {
                assert(self@ =~= old(self)@.remove(path@));
            },
        }
    }
}

// ---- Loading and saving ------------------------------------------------------

/// The notes that a list of stored files gives: the files without notes do not
/// count.
pub open spec fn loaded(pages: Seq<Page>) -> Map<Seq<char>, Seq<NoteModel>>
    decreases pages.len(),
{
    if pages.len() == 0 {
        Map::empty()
    } else if pages.last().1.len() > 0 {
        loaded(pages.drop_last()).insert(pages.last().0, pages.last().1)
    } else {
        loaded(pages.drop_last())
    }
}

/// Every file's notes, by repository-relative path, from the stored files that
/// could be read.
pub fn load_all(entries: &[FileNotes]) -> (r: NoteBook)
    ensures
        r.wf(),
        r@ == loaded(page_list(entries@)),
{
    let mut r = NoteBook::empty();
    let mut i: usize = 0;
    assert(page_list(entries@).take(0) =~= Seq::empty());
    while i < entries.len()
        invariant
            i <= entries@.len(),
            r.wf(),
            r@ == loaded(page_list(entries@).take(i as int)),
        decreases entries@.len() - i,
    {
        if entries[i].notes.len() > 0 {
            r.insert(entries[i].path.as_str(), copy_notes(entries[i].notes.as_slice()));
        }
        proof {
            let upto = page_list(entries@).take(i + 1);
            assert(upto.drop_last() =~= page_list(entries@).take(i as int));
            assert(upto.last() == entries@[i as int]@);
        }
        i += 1;
    }
    assert(page_list(entries@).take(i as int) =~= page_list(entries@));
    r
}

/// What is to be done to the stored notes of one file.
#[derive(Clone, Debug)]
pub enum SaveAction {
    /// Remove the file if it exists.
    Remove { path: String },
    /// Write these notes to the file.
    Write { path: String, notes: FileNotes },
}

/// What is to be done to the stored notes of one file.
pub enum SaveModel {
    Remove(Seq<char>),
    Write(Seq<char>, Page),
}

impl View for SaveAction {
    type V = SaveModel;

    open spec fn view(&self) -> SaveModel {
        match *self {
            SaveAction::Remove { path } => SaveModel::Remove(path@),
            SaveAction::Write { path, notes } => SaveModel::Write(path@, notes@),
        }
    }
}

/// How the notes of `rel` are stored: written to their file, which is removed
/// when there are none left.
pub open spec fn saved(root: Seq<char>, rel: Seq<char>, notes: Seq<NoteModel>) -> SaveModel {
    if notes.len() == 0 {
        SaveModel::Remove(notes_path(root, rel))
    } else {
        SaveModel::Write(notes_path(root, rel), (rel, notes))
    }
}

/// How `notes` are stored for `rel`. Their file is removed when there are none
/// left.
pub fn save(root: &str, rel: &str, notes: &[Note]) -> (r: SaveAction)
    ensures
        r@ == saved(root@, rel@, models(notes@)),
{
    let path = file_path(root, rel);
    if notes.len() == 0 {
        SaveAction::Remove { path }
    } else {
        SaveAction::Write {
            path,
            notes: FileNotes { path: rel.to_string(), notes: copy_notes(notes) },
        }
    }
}

// ---- Refreshing --------------------------------------------------------------

/// What a file in the work tree holds.
#[derive(Clone, Debug)]
pub struct FileContent {
    pub path: String,
    pub content: String,
}

/// What the file `path` holds, by the first entry for it; nothing if there is
/// none.
pub open spec fn content_of(contents: Seq<FileContent>, path: Seq<char>) -> Seq<char>
    decreases contents.len(),
{
    if contents.len() == 0 {
        Seq::empty()
    } else if contents[0].path@ == path {
        contents[0].content@
    } else {
        content_of(contents.skip(1), path)
    }
}

/// The notes that still match the lines of their file, where they are now.
pub open spec fn kept(notes: Seq<NoteModel>, lines: Seq<Seq<char>>) -> Seq<NoteModel>
    decreases notes.len(),
{
    if notes.len() == 0 {
        Seq::empty()
    } else {
        match notes.last().revalidated(lines) {
            Some(n) => kept(notes.drop_last(), lines).push(n),
            None => kept(notes.drop_last(), lines),
        }
    }
}

/// Where the notes are.
pub open spec fn anchors(notes: Seq<NoteModel>) -> Seq<(Position, Position)> {
    notes.map_values(|n: NoteModel| (n.start, n.end))
}

/// The notes of the file `path` that still match it.
pub open spec fn kept_in(notes: Seq<NoteModel>, contents: Seq<FileContent>, path: Seq<char>) -> Seq<NoteModel> {
    kept(notes, canonical_lines(content_of(contents, path)))
}

/// The notes that still match their files.
pub open spec fn refreshed(
    notes: Map<Seq<char>, Seq<NoteModel>>,
    contents: Seq<FileContent>,
) -> Map<Seq<char>, Seq<NoteModel>> {
    Map::new(
        |p: Seq<char>| notes.contains_key(p) && kept_in(notes[p], contents, p).len() > 0,
        |p: Seq<char>| kept_in(notes[p], contents, p),
    )
}

/// Whether the notes of the file `path` have moved, or some are gone.
pub open spec fn has_moved(
    notes: Map<Seq<char>, Seq<NoteModel>>,
    contents: Seq<FileContent>,
    path: Seq<char>,
) -> bool {
    notes.contains_key(path) && anchors(kept_in(notes[path], contents, path)) != anchors(notes[path])
}

/// How the notes of the file `path` are stored after a refresh.
pub open spec fn resaved(
    root: Seq<char>,
    notes: Map<Seq<char>, Seq<NoteModel>>,
    contents: Seq<FileContent>,
    path: Seq<char>,
) -> SaveModel {
    saved(root, path, kept_in(notes[path], contents, path))
}

/// Whether `actions` store the notes of every file whose notes have moved, and of
/// no other.
pub open spec fn stores_moved(
    root: Seq<char>,
    notes: Map<Seq<char>, Seq<NoteModel>>,
    contents: Seq<FileContent>,
    actions: Seq<SaveModel>,
) -> bool {
    &&& forall|p: Seq<char>| #[trigger]
        has_moved(notes, contents, p) ==> actions.contains(resaved(root, notes, contents, p))
    &&& forall|k: int|
        0 <= k < actions.len() ==> exists|p: Seq<char>|
            has_moved(notes, contents, p) && #[trigger] actions[k] == #[trigger] resaved(
                root,
                notes,
                contents,
                p,
            )
}

/// What actions do.
pub open spec fn save_models(v: Seq<SaveAction>) -> Seq<SaveModel> {
    v.map_values(|a: SaveAction| a@)
}

/// What the file `path` holds.
fn find_content(contents: &[FileContent], path: &str) -> (r: String)
    ensures
        r@ == content_of(contents@, path@),
{
    let mut i: usize = 0;
    assert(contents@.skip(0) =~= contents@);
    while i < contents.len()
        invariant
            i <= contents@.len(),
            content_of(contents@, path@) == content_of(contents@.skip(i as int), path@),
        decreases contents@.len() - i,
    {
        assert(contents@.skip(i as int).skip(1) =~= contents@.skip(i + 1));
        if same_text(contents[i].path.as_str(), path) {
            return contents[i].content.clone();
        }
        i += 1;
    }
    String::new()
}

/// The notes that still match the lines, where they are now.
fn keep_matching(notes: &[Note], lines: &[String]) -> (r: Vec<Note>)
    ensures
        models(r@) == kept(models(notes@), texts(lines@)),
{
    let mut r: Vec<Note> = Vec::new();
    let mut i: usize = 0;
    let ghost all = models(notes@);
    assert(models(r@) =~= Seq::empty());
    assert(all.take(0) =~= Seq::empty());
    while i < notes.len()
        invariant
            i <= notes@.len(),
            all == models(notes@),
            models(r@) == kept(all.take(i as int), texts(lines@)),
        decreases notes@.len() - i,
    {
        proof {
            assert(all.take(i + 1).drop_last() =~= all.take(i as int));
            assert(all.take(i + 1).last() == notes@[i as int]@);
        }
        let mut n = notes[i].copy();
        if revalidate(&mut n, lines) {
            let ghost before = models(r@);
            r.push(n);
            assert(models(r@) =~= before.push(n@));
        }
        i += 1;
    }
    assert(all.take(i as int) =~= all);
    r
}

/// Whether two lists of notes are at the same places.
fn same_anchors(a: &[Note], b: &[Note]) -> (r: bool)
    ensures
        r == (anchors(models(a@)) == anchors(models(b@))),
{
    let ghost (x, y) = (anchors(models(a@)), anchors(models(b@)));
    if a.len() != b.len() {
        assert(x.len() != y.len());
        return false;
    }
    let mut i: usize = 0;
    while i < a.len()
        invariant
            i <= a@.len() == b@.len(),
            x == anchors(models(a@)),
            y == anchors(models(b@)),
            forall|j: int| 0 <= j < i ==> x[j] == y[j],
        decreases a@.len() - i,
    {
        let (p, q) = (coords(&a[i]), coords(&b[i]));
        assert(x[i as int] == (a@[i as int]@.start, a@[i as int]@.end));
        assert(y[i as int] == (b@[i as int]@.start, b@[i as int]@.end));
        if p.0 != q.0 || p.1 != q.1 || p.2 != q.2 || p.3 != q.3 {
            return false;
        }
        i += 1;
    }
    assert(x =~= y);
    true
}

impl NoteBook {
    /// Re-anchors every note against its file's current content and drops those
    /// that no longer match. Returns what is left, and how the notes of the files
    /// where something changed are to be stored.
    pub fn refresh(&self, root: &str, contents: &[FileContent]) -> (r: (NoteBook, Vec<SaveAction>))
        requires
            self.wf(),
        ensures
            r.0.wf(),
            r.0@ == refreshed(self@, contents@),
            stores_moved(root@, self@, contents@, save_models(r.1@)),
    {
        let mut files: Vec<FileNotes> = Vec::new();
        let mut actions: Vec<SaveAction> = Vec::new();
        let ghost pages = page_list(self.files@);
        let ghost notes = self@;
        let mut i: usize = 0;
        proof {
            lemma_by_path(pages);
        }
        while i < self.files.len()
            invariant
                self.wf(),
                i <= self.files@.len(),
                pages == page_list(self.files@),
                notes == by_path(pages),
                one_page_each(pages),
                forall|j: int| 0 <= j < pages.len() ==> notes.contains_key((#[trigger] pages[j]).0),
                forall|j: int| 0 <= j < pages.len() ==> notes[(#[trigger] pages[j]).0] == pages[j].1,
                page_list(files@) == kept_pages(pages.take(i as int), contents@),
                forall|j: int|
                    0 <= j < i && has_moved(notes, contents@, (#[trigger] pages[j]).0) ==> save_models(
                        actions@,
                    ).contains(resaved(root@, notes, contents@, pages[j].0)),
                forall|k: int|
                    0 <= k < actions@.len() ==> exists|p: Seq<char>|
                        has_moved(notes, contents@, p) && (#[trigger] actions@[k])@ == #[trigger] resaved(
                            root@,
                            notes,
                            contents@,
                            p,
                        ),
            decreases self.files@.len() - i,
        {
            let file = &self.files[i];
            let ghost page = pages[i as int];
            assert(page == file@);
            let content = find_content(contents, file.path.as_str());
            let lines = canon_lines(content.as_str());
            let left = keep_matching(file.notes.as_slice(), lines.as_slice());
            assert(models(left@) == kept_in(notes[page.0], contents@, page.0));
            assert(models(left@).len() == left@.len());
            let ghost before = save_models(actions@);
            if !same_anchors(left.as_slice(), file.notes.as_slice()) {
                let ghost count = actions@.len();
                let action = save(root, file.path.as_str(), left.as_slice());
                actions.push(action);
                proof {
                    assert(has_moved(notes, contents@, page.0));
                    assert(action@ == resaved(root@, notes, contents@, page.0));
                    assert(save_models(actions@) =~= before.push(action@));
                    assert(save_models(actions@)[count as int] == action@);
                    assert forall|j: int|
                        0 <= j < i && has_moved(notes, contents@, (#[trigger] pages[j]).0) implies save_models(
                        actions@,
                    ).contains(resaved(root@, notes, contents@, pages[j].0)) by {
                        let k = choose|k: int|
                            0 <= k < before.len() && before[k] == resaved(root@, notes, contents@, pages[j].0);
                        assert(save_models(actions@)[k] == before[k]);
                    }
                }
            }
            proof {
                assert(pages.take(i + 1).drop_last() =~= pages.take(i as int));
                assert(pages.take(i + 1).last() == page);
            }
            if left.len() > 0 {
                let ghost so_far = page_list(files@);
                let kept_file = FileNotes { path: file.path.clone(), notes: left };
                files.push(kept_file);
                assert(page_list(files@) =~= so_far.push(kept_file@));
            }
            i += 1;
        }
        let book = NoteBook { files };
        proof {
            assert(pages.take(i as int) =~= pages);
            lemma_kept_pages(pages, contents@);
            let left = page_list(files@);
            lemma_by_path(left);
            let want = refreshed(notes, contents@);
            assert forall|p: Seq<char>| #[trigger] by_path(left).contains_key(p) == want.contains_key(p) by {
                if want.contains_key(p) {
                    let j = choose|j: int| 0 <= j < pages.len() && (#[trigger] pages[j]).0 == p;
                    assert(kept_in(pages[j].1, contents@, p).len() > 0);
                    assert(left.contains((p, kept_in(pages[j].1, contents@, p))));
                    let m = choose|m: int|
                        0 <= m < left.len() && left[m] == (p, kept_in(pages[j].1, contents@, p));
                    assert(left[m].0 == p);
                }
                if by_path(left).contains_key(p) {
                    let m = choose|m: int| 0 <= m < left.len() && (#[trigger] left[m]).0 == p;
                    let j = choose|j: int|
                        0 <= j < pages.len() && left[m] == kept_page(#[trigger] pages[j], contents@) && left[m].1.len()
                            > 0;
                    assert(notes[pages[j].0] == pages[j].1);
                }
            }
            assert forall|p: Seq<char>| by_path(left).contains_key(p) implies #[trigger] by_path(left)[p]
                == want[p] by {
                let m = choose|m: int| 0 <= m < left.len() && (#[trigger] left[m]).0 == p;
                let j = choose|j: int|
                    0 <= j < pages.len() && left[m] == kept_page(#[trigger] pages[j], contents@) && left[m].1.len()
                        > 0;
                assert(notes[pages[j].0] == pages[j].1);
                assert(by_path(left)[left[m].0] == left[m].1);
            }
            assert(by_path(left) =~= want);
            let done = save_models(actions@);
            assert forall|p: Seq<char>| #[trigger] has_moved(notes, contents@, p) implies done.contains(
                resaved(root@, notes, contents@, p),
            ) by {
                let j = choose|j: int| 0 <= j < pages.len() && (#[trigger] pages[j]).0 == p;
                assert(has_moved(notes, contents@, pages[j].0));
            }
            assert forall|k: int| 0 <= k < done.len() implies exists|p: Seq<char>|
                has_moved(notes, contents@, p) && #[trigger] done[k] == #[trigger] resaved(
                    root@,
                    notes,
                    contents@,
                    p,
                ) by {
                assert(done[k] == actions@[k]@);
            }
        }
        (book, actions)
    }
}

/// The page of a file, with the notes that still match it.
pub open spec fn kept_page(page: Page, contents: Seq<FileContent>) -> Page {
    (page.0, kept_in(page.1, contents, page.0))
}

/// The pages that have notes which still match.
pub open spec fn kept_pages(pages: Seq<Page>, contents: Seq<FileContent>) -> Seq<Page>
    decreases pages.len(),
{
    if pages.len() == 0 {
        Seq::empty()
    } else if kept_page(pages.last(), contents).1.len() > 0 {
        kept_pages(pages.drop_last(), contents).push(kept_page(pages.last(), contents))
    } else {
        kept_pages(pages.drop_last(), contents)
    }
}

proof fn lemma_kept_pages(pages: Seq<Page>, contents: Seq<FileContent>)
    ensures
        forall|m: int|
            0 <= m < kept_pages(pages, contents).len() ==> exists|j: int|
                0 <= j < pages.len() && #[trigger] kept_pages(pages, contents)[m] == kept_page(
                    #[trigger] pages[j],
                    contents,
                ) && kept_pages(pages, contents)[m].1.len() > 0,
        forall|j: int|
            0 <= j < pages.len() && kept_page(pages[j], contents).1.len() > 0 ==> kept_pages(
                pages,
                contents,
            ).contains(kept_page(#[trigger] pages[j], contents)),
        one_page_each(pages) ==> one_page_each(kept_pages(pages, contents)),
    decreases pages.len(),
{
    if pages.len() > 0 {
        let init = pages.drop_last();
        let last = kept_page(pages.last(), contents);
        let (a, b) = (kept_pages(init, contents), kept_pages(pages, contents));
        lemma_kept_pages(init, contents);
        assert forall|m: int| 0 <= m < b.len() implies exists|j: int|
            0 <= j < pages.len() && #[trigger] b[m] == kept_page(#[trigger] pages[j], contents) && b[m].1.len()
                > 0 by {
            if m < a.len() {
                let j = choose|j: int|
                    0 <= j < init.len() && a[m] == kept_page(#[trigger] init[j], contents) && a[m].1.len() > 0;
                assert(pages[j] == init[j]);
                assert(b[m] == a[m]);
            } else {
                assert(b[m] == kept_page(pages[pages.len() - 1], contents));
            }
        }
        assert forall|j: int| 0 <= j < pages.len() && kept_page(pages[j], contents).1.len() > 0 implies b.contains(
            kept_page(#[trigger] pages[j], contents),
        ) by {
            if j < init.len() {
                assert(pages[j] == init[j]);
                assert(a.contains(kept_page(init[j], contents)));
                let m = choose|m: int| 0 <= m < a.len() && a[m] == kept_page(init[j], contents);
                assert(b[m] == a[m]);
            } else {
                assert(b[b.len() - 1] == last);
            }
        }
        if one_page_each(pages) {
            assert forall|i: int, j: int| 0 <= i < j < init.len() implies (#[trigger] init[i]).0 != (
            #[trigger] init[j]).0 by {
                assert(pages[i].0 != pages[j].0);
            }
            assert forall|i: int, j: int| 0 <= i < j < b.len() implies (#[trigger] b[i]).0 != (
            #[trigger] b[j]).0 by {
                if j < a.len() {
                    assert(a[i].0 != a[j].0);
                } else {
                    let k = choose|k: int|
                        0 <= k < init.len() && a[i] == kept_page(#[trigger] init[k], contents) && a[i].1.len()
                            > 0;
                    assert(pages[k].0 != pages[pages.len() - 1].0);
                }
            }
        }
    }
}

// ---- What refreshing promises ------------------------------------------------

proof fn lemma_kept_stable(notes: Seq<NoteModel>, lines: Seq<Seq<char>>)
    requires
        lines.len() <= usize::MAX,
    ensures
        kept(kept(notes, lines), lines) == kept(notes, lines),
    decreases notes.len(),
{
    if notes.len() > 0 {
        lemma_kept_stable(notes.drop_last(), lines);
        if let Some(n) = notes.last().revalidated(lines) {
            revalidation_is_stable(notes.last(), lines);
            let k = kept(notes, lines);
            assert(k.drop_last() =~= kept(notes.drop_last(), lines));
            assert(k.last() == n);
        }
    }
}

/// A refresh that finds the files as they were at the last one changes nothing
/// and stores nothing.
pub proof fn refreshing_is_stable(notes: Map<Seq<char>, Seq<NoteModel>>, contents: Seq<FileContent>)
    requires
        forall|p: Seq<char>| (#[trigger] canonical_lines(content_of(contents, p))).len() <= usize::MAX,
    ensures
        refreshed(refreshed(notes, contents), contents) == refreshed(notes, contents),
        forall|p: Seq<char>| !has_moved(refreshed(notes, contents), contents, p),
{
    let once = refreshed(notes, contents);
    assert forall|p: Seq<char>| once.contains_key(p) implies kept_in(#[trigger] once[p], contents, p)
        == once[p] by {
        lemma_kept_stable(notes[p], canonical_lines(content_of(contents, p)));
    }
    assert(refreshed(once, contents) =~= once);
}

// ---- What storing promises ---------------------------------------------------

/// The files of the notes directory, by path.
pub type Shelf = Map<Seq<char>, Page>;

/// The files after `action`.
pub open spec fn performed(shelf: Shelf, action: SaveModel) -> Shelf {
    match action {
        SaveModel::Remove(path) => shelf.remove(path),
        SaveModel::Write(path, page) => shelf.insert(path, page),
    }
}

/// Whether every file holds the notes of the path it is named after.
pub open spec fn is_orderly(root: Seq<char>, shelf: Shelf) -> bool {
    forall|f: Seq<char>| #[trigger]
        shelf.contains_key(f) ==> f == notes_path(root, shelf[f].0)
}

/// The notes that stand in the files.
pub open spec fn on_shelf(root: Seq<char>, shelf: Shelf) -> Map<Seq<char>, Seq<NoteModel>> {
    Map::new(
        |p: Seq<char>|
            shelf.contains_key(notes_path(root, p)) && shelf[notes_path(root, p)].1.len() > 0,
        |p: Seq<char>| shelf[notes_path(root, p)].1,
    )
}

/// Saving the notes of a path replaces the notes of that path and leaves those
/// of every other path alone. Saving none removes them.
pub proof fn saving_replaces_one_page(
    root: Seq<char>,
    shelf: Shelf,
    rel: Seq<char>,
    notes: Seq<NoteModel>,
)
    requires
        is_orderly(root, shelf),
    ensures
        is_orderly(root, performed(shelf, saved(root, rel, notes))),
        on_shelf(root, performed(shelf, saved(root, rel, notes))) == (if notes.len() == 0 {
            on_shelf(root, shelf).remove(rel)
        } else {
            on_shelf(root, shelf).insert(rel, notes)
        }),
{
    let after = performed(shelf, saved(root, rel, notes));
    let want = if notes.len() == 0 {
        on_shelf(root, shelf).remove(rel)
    } else {
        on_shelf(root, shelf).insert(rel, notes)
    };
    assert forall|p: Seq<char>| p != rel implies notes_path(root, p) != notes_path(root, rel) by {
        if notes_path(root, p) == notes_path(root, rel) {
            note_files_are_distinct(root, p, rel);
        }
    }
    assert(on_shelf(root, after) =~= want);
}

proof fn lemma_loaded(pages: Seq<Page>)
    ensures
        forall|p: Seq<char>| #[trigger]
            loaded(pages).contains_key(p) <==> exists|i: int|
                0 <= i < pages.len() && (#[trigger] pages[i]).0 == p && pages[i].1.len() > 0,
        forall|p: Seq<char>| #[trigger]
            loaded(pages).contains_key(p) ==> exists|i: int|
                0 <= i < pages.len() && #[trigger] pages[i] == (p, loaded(pages)[p]),
    decreases pages.len(),
{
    if pages.len() > 0 {
        let init = pages.drop_last();
        let last = pages.last();
        lemma_loaded(init);
        assert forall|p: Seq<char>| #[trigger] loaded(pages).contains_key(p) <==> exists|i: int|
            0 <= i < pages.len() && (#[trigger] pages[i]).0 == p && pages[i].1.len() > 0 by {
            if loaded(init).contains_key(p) {
                let i = choose|i: int|
                    0 <= i < init.len() && (#[trigger] init[i]).0 == p && init[i].1.len() > 0;
                assert(pages[i] == init[i]);
            }
            if exists|i: int| 0 <= i < pages.len() && (#[trigger] pages[i]).0 == p && pages[i].1.len() > 0 {
                let i = choose|i: int|
                    0 <= i < pages.len() && (#[trigger] pages[i]).0 == p && pages[i].1.len() > 0;
                if i < init.len() {
                    assert(pages[i] == init[i]);
                }
            }
            if last.0 == p && last.1.len() > 0 {
                assert(pages[pages.len() - 1].0 == p);
            }
        }
        assert forall|p: Seq<char>| #[trigger] loaded(pages).contains_key(p) implies exists|i: int|
            0 <= i < pages.len() && #[trigger] pages[i] == (p, loaded(pages)[p]) by {
            if last.0 == p && last.1.len() > 0 {
                assert(pages[pages.len() - 1] == (p, loaded(pages)[p]));
            } else {
                assert(loaded(init).contains_key(p));
                let i = choose|i: int| 0 <= i < init.len() && #[trigger] init[i] == (p, loaded(init)[p]);
                assert(pages[i] == init[i]);
            }
        }
    }
}

/// Loading every file, in whatever order they come, gives the notes that stand
/// in them.
pub proof fn loading_reads_the_shelf(root: Seq<char>, shelf: Shelf, pages: Seq<Page>)
    requires
        is_orderly(root, shelf),
        forall|i: int|
            0 <= i < pages.len() ==> exists|f: Seq<char>|
                shelf.contains_key(f) && #[trigger] shelf[f] == #[trigger] pages[i],
        forall|f: Seq<char>| #[trigger] shelf.contains_key(f) ==> pages.contains(shelf[f]),
    ensures
        loaded(pages) == on_shelf(root, shelf),
{
    lemma_loaded(pages);
    let want = on_shelf(root, shelf);
    assert forall|p: Seq<char>| #[trigger] loaded(pages).contains_key(p) == want.contains_key(p) by {
        if loaded(pages).contains_key(p) {
            let i = choose|i: int| 0 <= i < pages.len() && (#[trigger] pages[i]).0 == p && pages[i].1.len() > 0;
            let f = choose|f: Seq<char>| shelf.contains_key(f) && #[trigger] shelf[f] == pages[i];
            assert(f == notes_path(root, p));
        }
        if want.contains_key(p) {
            let f = notes_path(root, p);
            assert(pages.contains(shelf[f]));
            let i = choose|i: int| 0 <= i < pages.len() && pages[i] == shelf[f];
            note_files_are_distinct(root, p, shelf[f].0);
            assert(pages[i].0 == p && pages[i].1.len() > 0);
        }
    }
    assert forall|p: Seq<char>| loaded(pages).contains_key(p) implies #[trigger] loaded(pages)[p]
        == want[p] by {
        let i = choose|i: int| 0 <= i < pages.len() && #[trigger] pages[i] == (p, loaded(pages)[p]);
        let f = choose|f: Seq<char>| shelf.contains_key(f) && #[trigger] shelf[f] == pages[i];
        assert(f == notes_path(root, p));
    }
    assert(loaded(pages) =~= want);
}

/// The files after all of `actions`, one after the other.
pub open spec fn performed_all(shelf: Shelf, actions: Seq<SaveModel>) -> Shelf
    decreases actions.len(),
{
    if actions.len() == 0 {
        shelf
    } else {
        performed(performed_all(shelf, actions.drop_last()), actions.last())
    }
}

/// Notes that all match, where they were, are the same notes.
proof fn lemma_kept_in_place(notes: Seq<NoteModel>, lines: Seq<Seq<char>>)
    ensures
        kept(notes, lines).len() <= notes.len(),
        anchors(kept(notes, lines)) == anchors(notes) ==> kept(notes, lines) == notes,
    decreases notes.len(),
{
    if notes.len() > 0 {
        let init = notes.drop_last();
        lemma_kept_in_place(init, lines);
        let k = kept(notes, lines);
        if anchors(k) == anchors(notes) {
            assert(anchors(k).len() == k.len());
            assert(anchors(notes).len() == notes.len());
            let n = notes.last().revalidated(lines).unwrap();
            assert(k.drop_last() =~= kept(init, lines));
            assert(anchors(k).drop_last() =~= anchors(kept(init, lines)));
            assert(anchors(notes).drop_last() =~= anchors(init));
            assert(anchors(k).last() == (n.start, n.end));
            assert(anchors(notes).last() == (notes.last().start, notes.last().end));
            assert(n == notes.last());
            assert(k =~= notes);
        }
    }
}

/// Whether the notes of `path` have been stored by one of `actions`.
spec fn is_stored(
    root: Seq<char>,
    notes: Map<Seq<char>, Seq<NoteModel>>,
    contents: Seq<FileContent>,
    actions: Seq<SaveModel>,
    path: Seq<char>,
) -> bool {
    has_moved(notes, contents, path) && actions.contains(resaved(root, notes, contents, path))
}

/// The notes in the files after some of the actions: those that have been stored,
/// and those that were there.
spec fn partly_stored(
    root: Seq<char>,
    notes: Map<Seq<char>, Seq<NoteModel>>,
    contents: Seq<FileContent>,
    actions: Seq<SaveModel>,
) -> Map<Seq<char>, Seq<NoteModel>> {
    Map::new(
        |p: Seq<char>|
            if is_stored(root, notes, contents, actions, p) {
                kept_in(notes[p], contents, p).len() > 0
            } else {
                notes.contains_key(p)
            },
        |p: Seq<char>|
            if is_stored(root, notes, contents, actions, p) {
                kept_in(notes[p], contents, p)
            } else {
                notes[p]
            },
    )
}

proof fn lemma_partly_stored(
    root: Seq<char>,
    shelf: Shelf,
    contents: Seq<FileContent>,
    actions: Seq<SaveModel>,
)
    requires
        is_orderly(root, shelf),
        forall|k: int|
            0 <= k < actions.len() ==> exists|p: Seq<char>|
                has_moved(on_shelf(root, shelf), contents, p) && #[trigger] actions[k] == #[trigger] resaved(
                    root,
                    on_shelf(root, shelf),
                    contents,
                    p,
                ),
    ensures
        is_orderly(root, performed_all(shelf, actions)),
        on_shelf(root, performed_all(shelf, actions)) == partly_stored(
            root,
            on_shelf(root, shelf),
            contents,
            actions,
        ),
    decreases actions.len(),
{
    let notes = on_shelf(root, shelf);
    if actions.len() == 0 {
        assert(partly_stored(root, notes, contents, actions) =~= notes);
    } else {
        let init = actions.drop_last();
        assert forall|k: int| 0 <= k < init.len() implies exists|p: Seq<char>|
            has_moved(notes, contents, p) && #[trigger] init[k] == #[trigger] resaved(
                root,
                notes,
                contents,
                p,
            ) by {
            assert(init[k] == actions[k]);
        }
        lemma_partly_stored(root, shelf, contents, init);
        let before = performed_all(shelf, init);
        assert(actions[actions.len() - 1] == actions.last());
        let q = choose|q: Seq<char>|
            has_moved(notes, contents, q) && actions.last() == #[trigger] resaved(root, notes, contents, q);
        let left = kept_in(notes[q], contents, q);
        saving_replaces_one_page(root, before, q, left);
        let (was, now) = (
            partly_stored(root, notes, contents, init),
            partly_stored(root, notes, contents, actions),
        );
        let want = if left.len() == 0 { was.remove(q) } else { was.insert(q, left) };
        assert forall|p: Seq<char>| #[trigger]
            is_stored(root, notes, contents, actions, p) == (p == q || is_stored(
                root,
                notes,
                contents,
                init,
                p,
            )) by {
            let a = resaved(root, notes, contents, p);
            assert(actions =~= init.push(actions.last()));
            if p == q {
                assert(actions[actions.len() - 1] == a);
            } else {
                if has_moved(notes, contents, p) && init.contains(a) {
                    let k = choose|k: int| 0 <= k < init.len() && init[k] == a;
                    assert(actions[k] == a);
                }
                if has_moved(notes, contents, p) && actions.contains(a) {
                    let k = choose|k: int| 0 <= k < actions.len() && actions[k] == a;
                    if k == actions.len() - 1 {
                        assert(notes_path(root, p) == notes_path(root, q));
                        note_files_are_distinct(root, p, q);
                    }
                    assert(init[k] == a);
                }
            }
        }
        assert(now =~= want);
    }
}

/// A refresh leaves the files as they are to be: if they held the notes before,
/// they hold those that still match, once what the refresh asks for has been done.
pub proof fn refreshing_stores_what_moved(
    root: Seq<char>,
    shelf: Shelf,
    contents: Seq<FileContent>,
    actions: Seq<SaveModel>,
)
    requires
        is_orderly(root, shelf),
        stores_moved(root, on_shelf(root, shelf), contents, actions),
    ensures
        on_shelf(root, performed_all(shelf, actions)) == refreshed(on_shelf(root, shelf), contents),
{
    let notes = on_shelf(root, shelf);
    lemma_partly_stored(root, shelf, contents, actions);
    let (now, want) = (partly_stored(root, notes, contents, actions), refreshed(notes, contents));
    assert forall|p: Seq<char>| notes.contains_key(p) && !(#[trigger] is_stored(
        root,
        notes,
        contents,
        actions,
        p,
    )) implies kept_in(notes[p], contents, p) == notes[p] by {
        assert(!has_moved(notes, contents, p));
        lemma_kept_in_place(notes[p], canonical_lines(content_of(contents, p)));
    }
    assert(now =~= want);
}

/// A refresh keeps of each file the notes whose text is still there, in their order
/// and where the text is now; the others are gone, and so is a file without notes.
pub proof fn refreshing_keeps_what_matches(
    notes: Map<Seq<char>, Seq<NoteModel>>,
    contents: Seq<FileContent>,
    path: Seq<char>,
    i: int,
)
    requires
        notes.contains_key(path),
        0 <= i < contents.len(),
        contents[i].path@ == path,
        forall|j: int| 0 <= j < i ==> (#[trigger] contents[j]).path@ != path,
    ensures
        ({
            let lines = canonical_lines(contents[i].content@);
            let left = notes[path].filter(|n: NoteModel| n.revalidated(lines) is Some).map_values(
                |n: NoteModel| n.revalidated(lines).unwrap(),
            );
            let after = refreshed(notes, contents);
            &&& after.contains_key(path) <==> left.len() > 0
            &&& left.len() > 0 ==> after[path] == left
        }),
{
    lemma_content_of(contents, path, i);
    lemma_kept(notes[path], canonical_lines(contents[i].content@));
}

proof fn lemma_content_of(contents: Seq<FileContent>, path: Seq<char>, i: int)
    requires
        0 <= i < contents.len(),
        contents[i].path@ == path,
        forall|j: int| 0 <= j < i ==> (#[trigger] contents[j]).path@ != path,
    ensures
        content_of(contents, path) == contents[i].content@,
    decreases i,
{
    if i > 0 {
        let rest = contents.skip(1);
        assert(contents[0].path@ != path);
        assert forall|j: int| 0 <= j < i - 1 implies (#[trigger] rest[j]).path@ != path by {
            assert(rest[j] == contents[j + 1]);
        }
        lemma_content_of(rest, path, i - 1);
    }
}

proof fn lemma_kept(notes: Seq<NoteModel>, lines: Seq<Seq<char>>)
    ensures
        kept(notes, lines) == notes.filter(|n: NoteModel| n.revalidated(lines) is Some).map_values(
            |n: NoteModel| n.revalidated(lines).unwrap(),
        ),
    decreases notes.len(),
{
    reveal(Seq::filter);
    if notes.len() > 0 {
        lemma_kept(notes.drop_last(), lines);
    }
    assert(kept(notes, lines) =~= notes.filter(|n: NoteModel| n.revalidated(lines) is Some).map_values(
        |n: NoteModel| n.revalidated(lines).unwrap(),
    ));
}

/// What two hexadecimal digits stand for.
pub open spec fn hex_value(a: char, b: char) -> int {
    let value = |c: char| if '0' <= c && c <= '9' { c as int - '0' as int } else { c as int - 'A' as int + 10 };
    value(a) * 16 + value(b)
}

/// Reads the bytes of a file name: two digits behind a `%` give a byte, every other
/// character stands for itself.
pub open spec fn unescaped(name: Seq<char>) -> Seq<int>
    decreases name.len(),
{
    if name.len() == 0 {
        Seq::empty()
    } else if name[0] == '%' && name.len() >= 3 {
        seq![hex_value(name[1], name[2])] + unescaped(name.skip(3))
    } else {
        seq![name[0] as int] + unescaped(name.skip(1))
    }
}

proof fn lemma_unescaped(s: Seq<u8>)
    ensures
        unescaped(encoded_bytes(s)) == s.map_values(|b: u8| b as int),
    decreases s.len(),
{
    let want = s.map_values(|b: u8| b as int);
    if s.len() == 0 {
        assert(unescaped(encoded_bytes(s)) =~= want);
    } else {
        let (one, rest) = (encoded_byte(s[0]), encoded_bytes(s.skip(1)));
        let name = one + rest;
        lemma_unescaped(s.skip(1));
        assert(name[0] == one[0]);
        if is_plain(s[0]) {
            assert(name.skip(1) =~= rest);
        } else {
            assert(name[1] == one[1] && name[2] == one[2]);
            assert(name.skip(3) =~= rest);
            assert(hex_value(one[1], one[2]) == s[0]);
        }
        assert(want =~= seq![s[0] as int] + s.skip(1).map_values(|b: u8| b as int));
    }
}

/// The file name of a path is read back: its escapes give the bytes of the path. A
/// name of letters, digits, dots, dashes and underscores stays as it is.
pub proof fn file_names_are_read_back(rel: Seq<char>)
    ensures
        unescaped(encoded(rel)) == encode_utf8(rel).map_values(|b: u8| b as int),
        (forall|i: int|
            0 <= i < rel.len() ==> ('0' <= #[trigger] rel[i] <= '9' || 'A' <= rel[i] <= 'Z' || 'a' <= rel[i] <= 'z'
                || rel[i] == '-' || rel[i] == '.' || rel[i] == '_')) ==> encoded(rel) == rel,
    decreases rel.len(),
{
    lemma_unescaped(encode_utf8(rel));
    if (forall|i: int|
        0 <= i < rel.len() ==> ('0' <= #[trigger] rel[i] <= '9' || 'A' <= rel[i] <= 'Z' || 'a' <= rel[i] <= 'z'
            || rel[i] == '-' || rel[i] == '.' || rel[i] == '_')) {
        if rel.len() == 0 {
            assert(encoded(rel) =~= rel);
        } else {
            let (c, rest) = (rel[0], rel.drop_first());
            assert forall|i: int| 0 <= i < rest.len() implies ('0' <= #[trigger] rest[i] <= '9' || 'A' <= rest[i]
                <= 'Z' || 'a' <= rest[i] <= 'z' || rest[i] == '-' || rest[i] == '.' || rest[i] == '_') by {
                assert(rest[i] == rel[i + 1]);
            }
            file_names_are_read_back(rest);
            let bytes = encode_utf8(rel);
            assert('0' <= rel[0] <= '9' || 'A' <= rel[0] <= 'Z' || 'a' <= rel[0] <= 'z' || rel[0] == '-' || rel[0]
                == '.' || rel[0] == '_');
            vstd::utf8::char_is_scalar(c);
            let n = c as u32;
            assert(n & 0x7F == n) by (bit_vector)
                requires
                    n < 128u32,
            ;
            assert(vstd::utf8::encode_scalar(c as u32) =~= seq![c as u8]);
            assert(bytes =~= seq![c as u8] + encode_utf8(rest));
            assert(bytes.skip(1) =~= encode_utf8(rest));
            assert(is_plain(bytes[0]));
            assert(encoded(rel) =~= seq![c] + encoded(rest));
            assert(rel =~= seq![c] + rest);
        }
    }
}

/// The notes of a path are stored under the notes directory of the root, in a file
/// that is named after the path.
pub proof fn notes_are_stored_under_the_root(root: Seq<char>, rel: Seq<char>, notes: Seq<NoteModel>)
    requires
        root.len() > 0,
        root.last() != '/',
    ensures
        notes.len() > 0 ==> saved(root, rel, notes) == SaveModel::Write(
            root + "/.sidecar/"@ + encoded(rel) + ".json"@,
            (rel, notes),
        ),
        notes.len() == 0 ==> saved(root, rel, notes) == SaveModel::Remove(
            root + "/.sidecar/"@ + encoded(rel) + ".json"@,
        ),
{
    reveal_strlit(".sidecar");
    reveal_strlit("/.sidecar/");
    assert(notes_path(root, rel) =~= root + "/.sidecar/"@ + encoded(rel) + ".json"@);
}

/// Of the pages that are read, the last with notes counts for a path.
pub proof fn last_page_counts(pages: Seq<Page>, path: Seq<char>, i: int)
    requires
        0 <= i < pages.len(),
        pages[i].0 == path,
        pages[i].1.len() > 0,
        forall|j: int| i < j < pages.len() ==> (#[trigger] pages[j]).0 != path || pages[j].1.len() == 0,
    ensures
        loaded(pages).contains_key(path),
        loaded(pages)[path] == pages[i].1,
    decreases pages.len(),
{
    if i < pages.len() - 1 {
        let init = pages.drop_last();
        assert(pages[pages.len() - 1].0 != path || pages[pages.len() - 1].1.len() == 0);
        assert forall|j: int| i < j < init.len() implies (#[trigger] init[j]).0 != path || init[j].1.len() == 0 by {
            assert(init[j] == pages[j]);
        }
        last_page_counts(init, path, i);
    }
}

/// A file of the notes directory is read just if its name is some text with `.json`
/// behind it.
pub proof fn notes_files_are_told_by_their_extension(name: Seq<char>, stem: Seq<char>)
    ensures
        stem.len() > 0 && name == stem + ".json"@ ==> has_notes_extension(name),
        has_notes_extension(name) ==> name.len() > ".json"@.len() && name == name.take(name.len() - ".json"@.len())
            + ".json"@,
{
    if stem.len() > 0 && name == stem + ".json"@ {
        assert(name.skip(name.len() - ".json"@.len()) =~= ".json"@);
    }
    if has_notes_extension(name) {
        assert(name =~= name.take(name.len() - ".json"@.len()) + name.skip(name.len() - ".json"@.len()));
    }
}

}

//! The command line: what is asked for, and what is done about it.

use crate::diff::{patch_source, shown_revision, FileDiff, FileModel, PatchSource};
use crate::text::{chars_of, has_char, pieces, text_in};
use vstd::prelude::*;

verus! {

/// Review-first terminal diff viewer.
#[derive(Debug, Clone)]
pub struct Cli {
    pub command: Command,
}

#[derive(Debug, Clone)]
pub enum Command {
    /// Review current repository changes.
    Diff {
        /// First file (old).
        old: Option<String>,
        /// Second file (new).
        new: Option<String>,
        /// Watch for changes and auto-reload.
        watch: bool,
        /// Show staged changes only.
        staged: bool,
    },
    /// Review a specific commit.
    Show {
        /// The revision to show (default: HEAD).
        revision: Option<String>,
    },
    /// Review a patch from a file or stdin.
    Patch {
        /// Patch file path (reads from stdin if not provided or "-").
        file: Option<String>,
    },
    /// Act as a Git pager (reads diff from stdin).
    Pager,
}

/// Where the diffs to review come from.
#[derive(Debug, Clone)]
pub enum Source {
    /// Two files are compared.
    Files { old: String, new: String },
    /// The changes of the repository, staged or not.
    Repository { staged: bool },
    /// A commit.
    Commit { revision: String },
    /// A patch in a file.
    PatchFile { path: String },
    /// A patch on the standard input.
    Stdin,
}

/// Where the diffs to review come from.
pub enum SourceModel {
    Files(Seq<char>, Seq<char>),
    Repository(bool),
    Commit(Seq<char>),
    PatchFile(Seq<char>),
    Stdin,
}

impl View for Source {
    type V = SourceModel;

    open spec fn view(&self) -> SourceModel {
        match *self {
            Source::Files { old, new } => SourceModel::Files(old@, new@),
            Source::Repository { staged } => SourceModel::Repository(staged),
            Source::Commit { revision } => SourceModel::Commit(revision@),
            Source::PatchFile { path } => SourceModel::PatchFile(path@),
            Source::Stdin => SourceModel::Stdin,
        }
    }
}

/// Where the diffs come from that a command asks for: two files are compared only
/// if both are named.
pub open spec fn source_of(command: Command) -> SourceModel {
    match command {
        Command::Diff { old, new, watch, staged } => match (text_in(old), text_in(new)) {
            (Some(a), Some(b)) => SourceModel::Files(a, b),
            _ => SourceModel::Repository(staged),
        },
        Command::Show { revision } => SourceModel::Commit(
            match text_in(revision) {
                Some(r) => r,
                None => "HEAD"@,
            },
        ),
        Command::Patch { file } => match text_in(file) {
            Some(path) => if path == "-"@ { SourceModel::Stdin } else { SourceModel::PatchFile(path) },
            None => SourceModel::Stdin,
        },
        Command::Pager => SourceModel::Stdin,
    }
}

/// Whether a command asks to watch for changes.
pub open spec fn is_watching(command: Command) -> bool {
    command matches Command::Diff { watch, .. } && watch
}

fn as_slice(s: &Option<String>) -> (r: Option<&str>)
    ensures
        match r {
            Some(t) => text_in(*s) == Some(t@),
            None => s is None,
        },
{
    match s {
        Some(t) => Some(t.as_str()),
        None => None,
    }
}

impl Cli {
    /// Where the diffs to review come from.
    pub fn source(&self) -> (r: Source)
        ensures
            r@ == source_of(self.command),
    {
        match &self.command {
            Command::Diff { old, new, staged, .. } => match (old, new) {
                (Some(a), Some(b)) => Source::Files { old: a.clone(), new: b.clone() },
                _ => Source::Repository { staged: *staged },
            },
            Command::Show { revision } => Source::Commit {
                revision: shown_revision(as_slice(revision)),
            },
            Command::Patch { file } => match patch_source(as_slice(file)) {
                PatchSource::File(path) => Source::PatchFile { path },
                PatchSource::Stdin => Source::Stdin,
            },
            Command::Pager => Source::Stdin,
        }
    }

    /// Whether to watch for changes.
    pub fn watches(&self) -> (r: bool)
        ensures
            r == is_watching(self.command),
    {
        match &self.command {
            Command::Diff { watch, .. } => *watch,
            _ => false,
        }
    }
}

// ---- Watching ----------------------------------------------------------------

/// The directory that a path is in.
pub uninterp spec fn parent(path: Seq<char>) -> Option<Seq<char>>;

/// `Path::parent`: the path without its last component; `None` for the root. Of a
/// path whose components are neither empty nor `.`, and of which there are two or
/// more, this is what stands before the last separator.
#[verifier::external_body]
fn parent_directory(path: &str) -> (r: Option<String>)
    ensures
        text_in(r) == parent(path@),
        forall|dir: Seq<char>, name: Seq<char>|
            #![trigger dir + seq!['/'] + name]
            path@ == dir + seq!['/'] + name && has_plain_parts(dir) && has_plain_parts(name) && !name.contains(
                '/',
            ) ==> text_in(r) == Some(dir),
{
    std::path::Path::new(path).parent().map(|p| p.to_string_lossy().into_owned())
}

/// Whether none of the components of a relative path is empty or `.`.
pub open spec fn has_plain_parts(path: Seq<char>) -> bool {
    forall|i: int|
        0 <= i < pieces(path, '/').len() ==> (#[trigger] pieces(path, '/')[i]).len() > 0 && pieces(
            path,
            '/',
        )[i] != "."@
}

/// What is watched for a file.
#[derive(Debug, Clone)]
pub enum WatchPath {
    /// A directory.
    Directory { path: String },
    /// The current directory.
    Here,
}

/// What is watched for a file.
pub enum WatchModel {
    Directory(Seq<char>),
    Here,
}

impl View for WatchPath {
    type V = WatchModel;

    open spec fn view(&self) -> WatchModel {
        match *self {
            WatchPath::Directory { path } => WatchModel::Directory(path@),
            WatchPath::Here => WatchModel::Here,
        }
    }
}

/// What is watched for the file `path`: the directory that it is in, if any.
pub open spec fn watched(path: Seq<char>) -> Option<WatchModel> {
    if path.contains('/') {
        match parent(path) {
            Some(dir) => Some(WatchModel::Directory(dir)),
            None => None,
        }
    } else {
        Some(WatchModel::Here)
    }
}

/// What is watched for a list of files, in order.
pub open spec fn all_watched(files: Seq<FileModel>) -> Seq<WatchModel>
    decreases files.len(),
{
    if files.len() == 0 {
        Seq::empty()
    } else {
        match watched(files.last().path) {
            Some(w) => all_watched(files.drop_last()).push(w),
            None => all_watched(files.drop_last()),
        }
    }
}

/// What is watched for the file `path`.
fn watch_path(path: &str) -> (r: Option<WatchPath>)
    ensures
        match r {
            Some(w) => watched(path@) == Some(w@),
            None => watched(path@) is None,
        },
{
    let chars = chars_of(path);
    if has_char(chars.as_slice(), '/') {
        match parent_directory(path) {
            Some(dir) => Some(WatchPath::Directory { path: dir }),
            None => None,
        }
    } else {
        Some(WatchPath::Here)
    }
}

/// What is watched for a list of files, in order.
pub fn watch_paths(files: &[FileDiff]) -> (r: Vec<WatchPath>)
    ensures
        r@.map_values(|w: WatchPath| w@) == all_watched(crate::diff::file_models(files@)),
{
    let mut r: Vec<WatchPath> = Vec::new();
    let ghost all = crate::diff::file_models(files@);
    let mut i: usize = 0;
    assert(all.take(0) =~= Seq::empty());
    assert(r@.map_values(|w: WatchPath| w@) =~= Seq::empty());
    while i < files.len()
        invariant
            i <= files@.len(),
            all == crate::diff::file_models(files@),
            r@.map_values(|w: WatchPath| w@) == all_watched(all.take(i as int)),
        decreases files@.len() - i,
    {
        proof {
            assert(all.take(i + 1).drop_last() =~= all.take(i as int));
            assert(all.take(i + 1).last() == files@[i as int]@);
        }
        if let Some(w) = watch_path(files[i].path.as_str()) {
            let ghost before = r@.map_values(|w: WatchPath| w@);
            r.push(w);
            assert(r@.map_values(|w: WatchPath| w@) =~= before.push(w@));
        }
        i += 1;
    }
    assert(all.take(i as int) =~= all);
    r
}

// ---- What a command asks for -------------------------------------------------

/// What is watched are the places of the files, in their order; a file without one has
/// none.
pub proof fn each_file_is_watched(files: Seq<FileModel>)
    ensures
        all_watched(files) == files.filter(|f: FileModel| watched(f.path) is Some).map_values(
            |f: FileModel| watched(f.path).unwrap(),
        ),
    decreases files.len(),
{
    reveal(Seq::filter);
    if files.len() > 0 {
        each_file_is_watched(files.drop_last());
    }
    assert(all_watched(files) =~= files.filter(|f: FileModel| watched(f.path) is Some).map_values(
        |f: FileModel| watched(f.path).unwrap(),
    ));
}

}

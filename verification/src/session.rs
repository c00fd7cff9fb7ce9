//! Starting the application, and keeping it up to date with the screen and the
//! repository.

use crate::app::{place_of, App, AppModel, DiffMode, FileListMode, Focus, Subject, SubjectModel};
use crate::git::{status_models, ChangedFile, StatusModel};
use crate::hunks::mark_models;
use crate::notebook::{refreshed, save_models, stores_moved, FileContent, NoteBook, SaveAction};
use crate::notes::NoteModel;
use crate::screen::{layout, left_of, panels, Rect};
use crate::style::{line_models, Line, SpanModel};
use crate::text::texts;
use vstd::prelude::*;

verus! {

/// An empty rectangle.
pub open spec fn nowhere() -> Rect {
    Rect { x: 0, y: 0, width: 0, height: 0 }
}

/// The state in which the application starts: all files are listed, hidden ones
/// too, the project root is selected, and nothing has been drawn.
pub open spec fn started(
    root: Seq<char>,
    files: Seq<StatusModel>,
    all_files: Seq<Seq<char>>,
    notes: Map<Seq<char>, Seq<NoteModel>>,
) -> AppModel {
    AppModel {
        root,
        files,
        all_files,
        file_list_mode: FileListMode::All,
        show_hidden: true,
        selected: Some(0),
        offset: 0,
        view: SubjectModel::Home,
        preview: seq![Seq::empty()],
        scroll: 0,
        preview_width: 0,
        preview_height: 0,
        needs_render: true,
        message: Seq::empty(),
        focus: Focus::Left,
        show_left: true,
        diff_mode: DiffMode::Auto,
        hunks: Seq::empty(),
        auto_refresh: false,
        show_help: false,
        wrap: false,
        list_area: nowhere(),
        preview_area: nowhere(),
        pending_quit: None,
        notes,
        annotate: false,
        cursor: None,
        annotate_lines: Seq::empty(),
        annotate_gutter: 0,
        mouse_anchor: None,
        mouse_down_preview: false,
        input: None,
        find: None,
        last_find: None,
        quit: false,
    }
}

impl AppModel {
    /// With the notes that still match their files.
    pub open spec fn with_fresh_notes(self, contents: Seq<FileContent>) -> AppModel {
        AppModel { notes: refreshed(self.notes, contents), ..self }
    }

    /// With other files in the repository. The selected file stays selected if it
    /// is still listed.
    pub open spec fn reloaded(
        self,
        files: Seq<StatusModel>,
        all_files: Seq<Seq<char>>,
        contents: Seq<FileContent>,
    ) -> AppModel {
        (AppModel { files, all_files, ..self }).selecting_path(self.selected_file()).with_fresh_notes(
            contents,
        ).stale()
    }

    /// With the panels in other places.
    pub open spec fn placed(self, list: Rect, preview: Rect) -> AppModel {
        let width = left_of(preview.width as int, 2) as u16;
        AppModel {
            list_area: list,
            preview_area: preview,
            preview_width: width,
            preview_height: left_of(preview.height as int, 2) as u16,
            needs_render: self.needs_render || width != self.preview_width,
            ..self
        }
    }
}

impl App {
    /// The state in which the application starts, in the repository at `root`, with
    /// the notes that were stored there. Notes that no longer match their file's
    /// current content are dropped or re-anchored; what is returned beside the state
    /// stores them.
    pub fn new(
        root: String,
        files: Vec<ChangedFile>,
        all_files: Vec<String>,
        notes: &NoteBook,
        contents: &[FileContent],
    ) -> (r: (App, Vec<SaveAction>))
        requires
            notes.wf(),
            files@.len() < usize::MAX,
            all_files@.len() < usize::MAX,
        ensures
            r.0@ == started(
                root@,
                status_models(files@),
                texts(all_files@),
                refreshed(notes@, contents@),
            ),
            stores_moved(root@, notes@, contents@, save_models(r.1@)),
            r.0.wf(),
    {
        let (fresh, actions) = notes.refresh(root.as_str(), contents);
        let mut preview: Vec<Line> = Vec::new();
        preview.push(Line::empty());
        let nowhere = Rect { x: 0, y: 0, width: 0, height: 0 };
        let app = App {
            root,
            files,
            all_files,
            file_list_mode: FileListMode::All,
            show_hidden: true,
            selected: Some(0),
            offset: 0,
            view: Subject::Home,
            preview,
            scroll: 0,
            preview_width: 0,
            preview_height: 0,
            needs_render: true,
            message: String::new(),
            focus: Focus::Left,
            show_left: true,
            diff_mode: DiffMode::Auto,
            hunks: Vec::new(),
            auto_refresh: false,
            show_help: false,
            wrap: false,
            list_area: nowhere,
            preview_area: nowhere,
            pending_quit: None,
            notes: fresh,
            annotate: false,
            cursor: None,
            annotate_lines: Vec::new(),
            annotate_gutter: 0,
            mouse_anchor: None,
            mouse_down_preview: false,
            input: None,
            find: None,
            last_find: None,
            quit: false,
        };
        proof {
            assert(line_models(app.preview@) =~= seq![Seq::<SpanModel>::empty()]);
            assert(mark_models(app.hunks@) =~= Seq::empty());
            assert(app.message@ =~= Seq::empty());
            assert(texts(app.annotate_lines@) =~= Seq::empty());
            assert(status_models(files@).len() == files@.len());
            assert(texts(all_files@).len() == all_files@.len());
        }
        (app, actions)
    }

    fn set_files(&mut self, files: Vec<ChangedFile>, all_files: Vec<String>)
        requires
            old(self).wf(),
            files@.len() < usize::MAX,
            all_files@.len() < usize::MAX,
        ensures
            final(self)@ == (AppModel {
                files: status_models(files@),
                all_files: texts(all_files@),
                ..old(self)@
            }),
            final(self).wf(),
    {
        assert(status_models(files@).len() == files@.len());
        assert(texts(all_files@).len() == all_files@.len());
        self.files = files;
        self.all_files = all_files;
    }

    /// Re-anchors every note against its file's current content, dropping any that
    /// no longer match. What is returned stores the ones that moved.
    pub fn refresh_notes(&mut self, contents: &[FileContent]) -> (r: Vec<SaveAction>)
        requires
            old(self).wf(),
        ensures
            final(self)@ == old(self)@.with_fresh_notes(contents@),
            stores_moved(old(self)@.root, old(self)@.notes, contents@, save_models(r@)),
            final(self).wf(),
    {
        let (fresh, actions) = self.notes.refresh(self.root.as_str(), contents);
        self.notes = fresh;
        actions
    }

    /// Rebuilds the file lists, preserving the selected path when possible, and
    /// re-anchors the notes. What is returned stores the ones that moved.
    pub fn reload(&mut self, files: Vec<ChangedFile>, all_files: Vec<String>, contents: &[FileContent]) -> (r:
        Vec<SaveAction>)
        requires
            old(self).wf(),
            files@.len() < usize::MAX,
            all_files@.len() < usize::MAX,
        ensures
            final(self)@ == old(self)@.reloaded(status_models(files@), texts(all_files@), contents@),
            stores_moved(old(self)@.root, old(self)@.notes, contents@, save_models(r@)),
            final(self).wf(),
    {
        let selected = self.selected_path();
        self.set_files(files, all_files);
        self.select_path(&selected);
        let actions = self.refresh_notes(contents);
        self.mark_stale();
        actions
    }

    /// Takes note of where the panels are. The preview is drawn anew if its width
    /// has changed.
    pub fn place(&mut self, list: Rect, preview: Rect)
        requires
            old(self).wf(),
            list.wf(),
            preview.wf(),
        ensures
            final(self)@ == old(self)@.placed(list, preview),
            final(self).wf(),
    {
        let width = if preview.width > 2 {
            preview.width - 2
        } else {
            0
        };
        let height = if preview.height > 2 {
            preview.height - 2
        } else {
            0
        };
        self.needs_render = self.needs_render || width != self.preview_width;
        self.list_area = list;
        self.preview_area = preview;
        self.preview_width = width;
        self.preview_height = height;
    }

    /// Divides a screen of the given size between the panels, so that the preview
    /// is rendered at the width of its pane. Returns where the footer is.
    pub fn fit(&mut self, width: u16, height: u16) -> (footer: Rect)
        requires
            old(self).wf(),
        ensures
            ({
                let screen = Rect { x: 0, y: 0, width, height };
                let left_width = old(self)@.left_width(width) as u16;
                let (list, preview, bottom) = panels(screen, old(self)@.show_left, left_width);
                footer == bottom && final(self)@ == old(self)@.placed(list, preview)
            }),
            final(self).wf(),
    {
        let area = Rect { x: 0, y: 0, width, height };
        let (list, preview, footer) = layout(area, self.show_left, self.desired_left_width(width));
        self.place(list, preview);
        footer
    }
}

// ---- What reloading promises -------------------------------------------------

/// A reload takes over the files of the repository. The file that was selected stays
/// selected at its first place in the new list; if it is gone, the project is selected.
/// The view, the scroll position and the settings stay.
pub proof fn reload_keeps_the_selection(
    m: AppModel,
    files: Seq<StatusModel>,
    all_files: Seq<Seq<char>>,
    contents: Seq<FileContent>,
    path: Seq<char>,
)
    requires
        m.selected_file() == Some(path),
        m.reloaded(files, all_files, contents).visible().len() < usize::MAX,
    ensures
        ({
            let s = m.reloaded(files, all_files, contents);
            &&& s.files == files && s.all_files == all_files
            &&& s.visible().contains(path) ==> s.selected_file() == Some(path)
            &&& !s.visible().contains(path) ==> s.selected == Some(0usize)
            &&& s.view == m.view && s.scroll == m.scroll && s.file_list_mode == m.file_list_mode && s.show_hidden
                == m.show_hidden
            &&& s.needs_render
            &&& s.notes == refreshed(m.notes, contents)
        }),
{
    let s = m.reloaded(files, all_files, contents);
    let t = AppModel { files, all_files, ..m };
    assert(t.visible() == s.visible());
    lemma_place_of(s.visible(), path, 0);
}

proof fn lemma_place_of(paths: Seq<Seq<char>>, path: Seq<char>, from: int)
    requires
        0 <= from,
    ensures
        match place_of(paths, path, from) {
            Some(i) => from <= i < paths.len() && paths[i] == path,
            None => forall|i: int| from <= i < paths.len() ==> #[trigger] paths[i] != path,
        },
    decreases paths.len() - from,
{
    if from < paths.len() && paths[from] != path {
        lemma_place_of(paths, path, from + 1);
    }
}

/// The preview is rendered for the inside of its panel, and anew if its width changes.
pub proof fn panels_are_placed(m: AppModel, list: Rect, preview: Rect)
    requires
        preview.width >= 2,
        preview.height >= 2,
    ensures
        ({
            let s = m.placed(list, preview);
            &&& s.preview_width == preview.width - 2
            &&& s.preview_height == preview.height - 2
            &&& s.list_area == list && s.preview_area == preview
            &&& m.preview_width != preview.width - 2 ==> s.needs_render
            &&& m.preview_width == preview.width - 2 ==> s.needs_render == m.needs_render
        }),
{
}

}

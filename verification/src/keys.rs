//! What the keys and the mouse do.

use crate::app::{
    changed_paths, paths_of, App, AppModel, CursorState, DiffMode, FileListMode, Focus, QUIT_WINDOW,
    SearchScope, Subject, SubjectModel,
};
use crate::events::{effect_model, Effect, EffectModel, Key, Moment};
use crate::external::{in_root, locate};
use crate::notes::SelKind;
use crate::screen::{left_of, truncate_u16, truncated};
use crate::text::{push_text, texts};
use vstd::prelude::*;

verus! {

// ---- Switches ----------------------------------------------------------------

/// `on` or `off`.
pub open spec fn on_off(on: bool) -> Seq<char> {
    if on { "on"@ } else { "off"@ }
}

impl AppModel {
    /// With another panel focused.
    pub open spec fn focusing(self, focus: Focus) -> AppModel {
        AppModel { focus, ..self }
    }

    /// With the file list shown if it was not, and the other way round. The panel
    /// that is left, or that has come, is focused.
    pub open spec fn list_toggled(self) -> AppModel {
        AppModel {
            show_left: !self.show_left,
            focus: if self.show_left { Focus::Right } else { Focus::Left },
            ..self
        }
    }

    /// With the preview wrapped if it was not, and the other way round.
    pub open spec fn wrap_toggled(self) -> AppModel {
        AppModel { wrap: !self.wrap, needs_render: true, message: "wrap: "@ + on_off(!self.wrap), ..self }
    }

    /// With the diff refreshed by itself if it was not, and the other way round.
    pub open spec fn refresh_toggled(self) -> AppModel {
        AppModel {
            auto_refresh: !self.auto_refresh,
            message: "auto-refresh: "@ + on_off(!self.auto_refresh),
            ..self
        }
    }

    /// With the other set of files listed. The selected file stays selected if it
    /// is in both.
    pub open spec fn mode_toggled(self) -> AppModel {
        (AppModel { file_list_mode: self.file_list_mode.other(), ..self }).selecting_path(
            self.selected_file(),
        ).viewing_selected().saying("files: "@ + self.file_list_mode.other().name())
    }

    /// With hidden files listed if they were not, and the other way round. The
    /// selected file stays selected if it is still listed.
    pub open spec fn hidden_toggled(self) -> AppModel {
        (AppModel { show_hidden: !self.show_hidden, ..self }).selecting_path(
            self.selected_file(),
        ).viewing_selected().saying(
            "hidden files: "@ + (if self.show_hidden { "hidden"@ } else { "shown"@ }),
        )
    }

    /// With another layout of diffs.
    pub open spec fn laid_out(self, mode: DiffMode) -> AppModel {
        AppModel {
            diff_mode: mode,
            needs_render: self.needs_render || self.diff_mode != mode,
            message: "diff: "@ + mode.name(),
            ..self
        }
    }

    /// Whether `j` and `k` move in the list.
    pub open spec fn on_left(self) -> bool {
        self.focus == Focus::Left && self.show_left
    }

    /// With a row of the list selected and shown.
    pub open spec fn at_row(self, row: int) -> AppModel {
        self.selecting(Some(row as usize)).viewing_selected()
    }
}

impl App {
    pub(crate) fn set_focus(&mut self, focus: Focus)
        requires
            old(self).wf(),
        ensures
            final(self)@ == old(self)@.focusing(focus),
            final(self).wf(),
    {
        self.focus = focus;
    }

    /// Toggles the left panel.
    pub fn toggle_list(&mut self)
        requires
            old(self).wf(),
        ensures
            final(self)@ == old(self)@.list_toggled(),
            final(self).wf(),
    {
        self.focus = if self.show_left {
            Focus::Right
        } else {
            Focus::Left
        };
        self.show_left = !self.show_left;
    }

    /// Toggles preview line wrapping.
    pub fn toggle_wrap(&mut self)
        requires
            old(self).wf(),
        ensures
            final(self)@ == old(self)@.wrap_toggled(),
            final(self).wf(),
    {
        let mut message = "wrap: ".to_string();
        if self.wrap {
            push_text(&mut message, "off");
        } else {
            push_text(&mut message, "on");
        }
        self.wrap = !self.wrap;
        self.needs_render = true;
        self.message = message;
    }

    pub fn toggle_auto_refresh(&mut self)
        requires
            old(self).wf(),
        ensures
            final(self)@ == old(self)@.refresh_toggled(),
            final(self).wf(),
    {
        let mut message = "auto-refresh: ".to_string();
        if self.auto_refresh {
            push_text(&mut message, "off");
        } else {
            push_text(&mut message, "on");
        }
        self.auto_refresh = !self.auto_refresh;
        self.message = message;
    }

    fn set_mode(&mut self, mode: FileListMode)
        requires
            old(self).wf(),
        ensures
            final(self)@ == (AppModel { file_list_mode: mode, ..old(self)@ }),
            final(self).wf(),
    {
        self.file_list_mode = mode;
    }

    fn set_hidden(&mut self, show_hidden: bool)
        requires
            old(self).wf(),
        ensures
            final(self)@ == (AppModel { show_hidden, ..old(self)@ }),
            final(self).wf(),
    {
        self.show_hidden = show_hidden;
    }

    /// Toggles the files shown in the left panel.
    pub fn toggle_file_list_mode(&mut self)
        requires
            old(self).wf(),
        ensures
            final(self)@ == old(self)@.mode_toggled(),
            final(self).wf(),
    {
        let selected = self.selected_path();
        let mode = match self.file_list_mode {
            FileListMode::All => FileListMode::Changes,
            FileListMode::Changes => FileListMode::All,
        };
        self.set_mode(mode);
        self.select_path(&selected);
        self.sync_view_from_list();
        let mut message = "files: ".to_string();
        push_text(&mut message, mode.label().as_str());
        self.say(message.as_str());
    }

    /// Toggles whether hidden files are shown in the left panel.
    pub fn toggle_hidden_files(&mut self)
        requires
            old(self).wf(),
        ensures
            final(self)@ == old(self)@.hidden_toggled(),
            final(self).wf(),
    {
        let selected = self.selected_path();
        let show_hidden = !self.show_hidden;
        self.set_hidden(show_hidden);
        self.select_path(&selected);
        self.sync_view_from_list();
        let mut message = "hidden files: ".to_string();
        if show_hidden {
            push_text(&mut message, "shown");
        } else {
            push_text(&mut message, "hidden");
        }
        self.say(message.as_str());
    }

    pub fn set_diff_mode(&mut self, mode: DiffMode)
        requires
            old(self).wf(),
        ensures
            final(self)@ == old(self)@.laid_out(mode),
            final(self).wf(),
    {
        let mut message = "diff: ".to_string();
        push_text(&mut message, mode.label().as_str());
        if self.diff_mode != mode {
            self.needs_render = true;
        }
        self.diff_mode = mode;
        self.message = message;
    }

    /// Selects and shows a row of the list.
    pub(crate) fn go_to_row(&mut self, row: usize)
        requires
            old(self).wf(),
        ensures
            final(self)@ == old(self)@.at_row(row as int),
            final(self).wf(),
    {
        self.select(Some(row));
        self.sync_view_from_list();
    }
}

// ---- External tools ----------------------------------------------------------

impl AppModel {
    /// What a search covers, and what is said instead if it covers nothing.
    pub open spec fn searching(self, scope: SearchScope) -> (AppModel, Option<EffectModel>) {
        match scope {
            SearchScope::File => match self.view {
                SubjectModel::File(path, _) => (
                    self,
                    Some(EffectModel::Search(seq![path], "file> "@, "current file"@)),
                ),
                SubjectModel::Home => (self.saying("Select a file first to search it."@), None),
            },
            SearchScope::Project => match self.file_list_mode {
                FileListMode::All => (
                    self,
                    Some(EffectModel::Search(Seq::empty(), "project> "@, "all repository lines"@)),
                ),
                FileListMode::Changes => if self.files.len() == 0 {
                    (self.saying("No changed files to search."@), None)
                } else {
                    (
                        self,
                        Some(
                            EffectModel::Search(
                                changed_paths(self.files),
                                "changed> "@,
                                "changed files"@,
                            ),
                        ),
                    )
                },
            },
        }
    }

    /// What is opened in the editor, and what is said instead if there is nothing.
    pub open spec fn editing(self) -> (AppModel, Option<EffectModel>) {
        match self.edited() {
            Some((path, line)) => (self, Some(EffectModel::Edit(in_root(self.root, path), line))),
            None => (self.saying("Nothing to open here."@), None),
        }
    }
}

impl App {
    /// Line search over the working tree. `/` (File) always searches the current
    /// file; `s` (Project) searches the whole repository in `All` mode or just the
    /// changed files in `Changes` mode.
    pub fn search(&mut self, scope: SearchScope) -> (r: Option<Effect>)
        requires
            old(self).wf(),
        ensures
            (final(self)@, effect_model(r)) == old(self)@.searching(scope),
            final(self).wf(),
    {
        match scope {
            SearchScope::File => match self.viewed_path() {
                Some(path) => {
                    let targets = vec![path];
                    assert(texts(targets@) =~= seq![path@]);
                    Some(
                        Effect::Search {
                            targets,
                            prompt: "file> ".to_string(),
                            header: "current file".to_string(),
                        },
                    )
                },
                None => {
                    self.say("Select a file first to search it.");
                    None
                },
            },
            SearchScope::Project => match self.file_list_mode {
                FileListMode::All => {
                    let targets: Vec<String> = Vec::new();
                    assert(texts(targets@) =~= Seq::empty());
                    Some(
                        Effect::Search {
                            targets,
                            prompt: "project> ".to_string(),
                            header: "all repository lines".to_string(),
                        },
                    )
                },
                FileListMode::Changes => {
                    if self.files.len() == 0 {
                        self.say("No changed files to search.");
                        None
                    } else {
                        Some(
                            Effect::Search {
                                targets: paths_of(self.files.as_slice()),
                                prompt: "changed> ".to_string(),
                                header: "changed files".to_string(),
                            },
                        )
                    }
                },
            },
        }
    }

    /// Opens the current file (at the current hunk's line) in the editor.
    pub fn open_editor(&mut self) -> (r: Option<Effect>)
        requires
            old(self).wf(),
        ensures
            (final(self)@, effect_model(r)) == old(self)@.editing(),
            final(self).wf(),
    {
        match self.editor_target() {
            Some((path, line)) => Some(
                Effect::Edit { path: locate(self.root.as_str(), path.as_str()), line },
            ),
            None => {
                self.say("Nothing to open here.");
                None
            },
        }
    }

    /// Says what went wrong with an external tool.
    pub fn report_failure(&mut self, tool: &str, error: &str)
        requires
            old(self).wf(),
        ensures
            final(self)@ == old(self)@.saying(tool@ + ": "@ + error@),
            final(self).wf(),
    {
        let mut message = tool.to_string();
        push_text(&mut message, ": ");
        push_text(&mut message, error);
        self.say(message.as_str());
    }
}

// ---- Keys --------------------------------------------------------------------

impl AppModel {
    /// After a key that moves about: in the list if that has the focus, else in the
    /// preview. None if the key does not.
    #[verifier::opaque]
    pub open spec fn moving_key(self, key: Key) -> Option<AppModel> {
        if key == Key::Char('j') || key == Key::Down {
            Some(if self.on_left() { self.next_selected() } else { self.scrolled_by(1) })
        } else if key == Key::Char('k') || key == Key::Up {
            Some(if self.on_left() { self.previous_selected() } else { self.scrolled_by(-1) })
        } else if key == Key::Char('g') {
            Some(if self.on_left() { self.at_row(0) } else { AppModel { scroll: 0, ..self } })
        } else if key == Key::Char('G') {
            Some(
                if self.on_left() {
                    self.at_row(self.visible().len() as int)
                } else {
                    self.scrolled_to(truncated(self.preview.len() as int) as u16)
                },
            )
        } else if key == Key::Char('H') || key == Key::Home {
            Some(self.at_row(0))
        } else if key == Key::Char(']') {
            Some(self.jumped(true))
        } else if key == Key::Char('[') {
            Some(self.jumped(false))
        } else if key == Key::Enter {
            Some(self.hunk_opened())
        } else if key == Key::PageDown || key == Key::Char(' ') {
            Some(self.scrolled_by(self.preview_height as int))
        } else if key == Key::PageUp {
            Some(self.scrolled_by(-self.preview_height))
        } else {
            None
        }
    }

    /// After a key that switches something. None if the key does not.
    #[verifier::opaque]
    pub open spec fn switching_key(self, key: Key) -> Option<AppModel> {
        if key == Key::Char('h') {
            Some(if self.show_left { self.focusing(Focus::Left) } else { self })
        } else if key == Key::Char('l') {
            Some(self.focusing(Focus::Right))
        } else if key == Key::Char('S') {
            Some(self.list_toggled())
        } else if key == Key::Char('C') {
            Some(self.mode_toggled())
        } else if key == Key::Char('.') {
            Some(self.hidden_toggled())
        } else if key == Key::Char('W') {
            Some(self.wrap_toggled())
        } else if key == Key::Char('R') {
            Some(self.refresh_toggled())
        } else if key == Key::Char('1') {
            Some(self.laid_out(DiffMode::Stacked))
        } else if key == Key::Char('2') {
            Some(self.laid_out(DiffMode::SideBySide))
        } else if key == Key::Char('3') {
            Some(self.laid_out(DiffMode::Auto))
        } else {
            None
        }
    }

    /// After a key that asks something of the outside world, or that does nothing.
    #[verifier::opaque]
    pub open spec fn asking_key(self, key: Key) -> (AppModel, Option<EffectModel>) {
        if key == Key::Char('r') {
            (self, Some(EffectModel::Reload))
        } else if key == Key::Char('z') {
            (self, Some(EffectModel::Lazygit))
        } else if key == Key::Char('y') {
            (self, Some(EffectModel::Yazi))
        } else if key == Key::Char('f') {
            (self, Some(EffectModel::PickFile))
        } else if key == Key::Char('s') {
            self.searching(SearchScope::Project)
        } else if key == Key::Char('/') {
            self.searching(SearchScope::File)
        } else if key == Key::Char('e') {
            self.editing()
        } else {
            (self, None)
        }
    }

    /// After a key that no mode has taken.
    #[verifier::opaque]
    pub open spec fn bound_key(self, key: Key) -> (AppModel, Option<EffectModel>) {
        match self.moving_key(key) {
            Some(s) => (s, None),
            None => match self.switching_key(key) {
                Some(s) => (s, None),
                None => self.asking_key(key),
            },
        }
    }

    /// After a key while a file is shown and nothing is typed in. Annotation can be
    /// entered from either panel; the cursor's keys count once the preview has the
    /// focus.
    #[verifier::opaque]
    pub open spec fn file_key(self, key: Key) -> (AppModel, Option<EffectModel>) {
        let starts = key == Key::Char('n') || key == Key::Char('v') || key == Key::Char('V');
        if !self.annotate {
            if key == Key::Char('n') {
                (self.annotating(None), None)
            } else if key == Key::Char('v') {
                (self.annotating(Some(SelKind::Char)), None)
            } else if key == Key::Char('V') {
                (self.annotating(Some(SelKind::Line)), None)
            } else {
                self.bound_key(key)
            }
        } else if self.focus == Focus::Left {
            if key == Key::Char('n') {
                (self.focusing(Focus::Right), None)
            } else if starts {
                let (s, _, effect) = self.focusing(Focus::Right).cursor_key(key);
                (s, effect)
            } else {
                self.bound_key(key)
            }
        } else {
            let (s, consumed, effect) = self.cursor_key(key);
            if consumed { (s, effect) } else { self.bound_key(key) }
        }
    }

    /// After a key that is not about leaving the program: it goes to the note that
    /// is typed in, to the search prompt, to the help, or to what is shown.
    pub open spec fn plain_key(self, key: Key, ctrl: bool, id: u64, created_at: Seq<char>) -> (
        AppModel,
        Option<EffectModel>,
    ) {
        if self.input is Some {
            self.input_key(key, ctrl, id, created_at)
        } else if self.find is Some {
            (self.find_key(key, ctrl), None)
        } else if key == Key::Char('?') {
            (AppModel { show_help: !self.show_help, ..self }, None)
        } else if self.show_help {
            (AppModel { show_help: false, ..self }, None)
        } else if self.view is File {
            self.file_key(key)
        } else {
            self.bound_key(key)
        }
    }

    /// After Ctrl+C: the second within the window leaves the program.
    pub open spec fn interrupted(self, now: u64) -> AppModel {
        match self.pending_quit {
            Some(t) if left_of(now as int, t as int) < QUIT_WINDOW => AppModel { quit: true, ..self },
            _ => AppModel {
                pending_quit: Some(now),
                message: "Press Ctrl+C again to exit (or Ctrl+D)"@,
                ..self
            },
        }
    }

    /// With no Ctrl+C pending and nothing in the status line.
    pub open spec fn settled(self) -> AppModel {
        AppModel { pending_quit: None, message: Seq::empty(), ..self }
    }

    /// After a key.
    pub open spec fn key_pressed(self, key: Key, ctrl: bool, now: u64, id: u64, created_at: Seq<char>) -> (
        AppModel,
        Option<EffectModel>,
    ) {
        if ctrl && (key == Key::Char('d') || key == Key::Char('D')) {
            (AppModel { quit: true, ..self }, None)
        } else if ctrl && (key == Key::Char('c') || key == Key::Char('C')) {
            (self.interrupted(now), None)
        } else if ctrl && (key == Key::Char('z') || key == Key::Char('Z')) {
            (self, Some(EffectModel::Suspend))
        } else {
            self.settled().plain_key(key, ctrl, id, created_at)
        }
    }
}

impl App {
    fn set_scroll(&mut self, row: u16)
        requires
            old(self).wf(),
        ensures
            final(self)@ == (AppModel { scroll: row, ..old(self)@ }),
            final(self).wf(),
    {
        self.scroll = row;
    }

    /// Handles a key that moves about. Returns whether the key does.
    fn handle_moving_key(&mut self, key: Key) -> (r: bool)
        requires
            old(self).wf(),
        ensures
            match old(self)@.moving_key(key) {
                Some(s) => r && final(self)@ == s,
                None => !r && final(self)@ == old(self)@,
            },
            final(self).wf(),
    {
        reveal(AppModel::moving_key);
        let on_left = self.focus == Focus::Left && self.show_left;
        match key {
            Key::Char('j') | Key::Down => {
                if on_left {
                    self.select_next();
                } else {
                    self.scroll_preview(1);
                }
            },
            Key::Char('k') | Key::Up => {
                if on_left {
                    self.select_prev();
                } else {
                    self.scroll_preview(-1);
                }
            },
            Key::Char('g') => {
                if on_left {
                    self.go_to_row(0);
                } else {
                    self.set_scroll(0);
                }
            },
            Key::Char('G') => {
                if on_left {
                    let last = self.visible_file_count();
                    self.go_to_row(last);
                } else {
                    let row = truncate_u16(self.preview.len());
                    self.scroll_to(row);
                }
            },
            Key::Char('H') | Key::Home => {
                self.go_to_row(0);
            },
            Key::Char(']') => {
                self.jump_hunk(1);
            },
            Key::Char('[') => {
                self.jump_hunk(-1);
            },
            Key::Enter => {
                self.open_current_hunk();
            },
            Key::PageDown | Key::Char(' ') => {
                let height = self.preview_height as i32;
                self.scroll_preview(height);
            },
            Key::PageUp => {
                let height = self.preview_height as i32;
                self.scroll_preview(-height);
            },
            _ => {
                return false;
            },
        }
        true
    }

    /// Handles a key that switches something. Returns whether the key does.
    fn handle_switching_key(&mut self, key: Key) -> (r: bool)
        requires
            old(self).wf(),
        ensures
            match old(self)@.switching_key(key) {
                Some(s) => r && final(self)@ == s,
                None => !r && final(self)@ == old(self)@,
            },
            final(self).wf(),
    {
        reveal(AppModel::switching_key);
        match key {
            Key::Char('h') => {
                if self.show_left {
                    self.set_focus(Focus::Left);
                }
            },
            Key::Char('l') => {
                self.set_focus(Focus::Right);
            },
            Key::Char('S') => {
                self.toggle_list();
            },
            Key::Char('C') => {
                self.toggle_file_list_mode();
            },
            Key::Char('.') => {
                self.toggle_hidden_files();
            },
            Key::Char('W') => {
                self.toggle_wrap();
            },
            Key::Char('R') => {
                self.toggle_auto_refresh();
            },
            Key::Char('1') => {
                self.set_diff_mode(DiffMode::Stacked);
            },
            Key::Char('2') => {
                self.set_diff_mode(DiffMode::SideBySide);
            },
            Key::Char('3') => {
                self.set_diff_mode(DiffMode::Auto);
            },
            _ => {
                return false;
            },
        }
        true
    }

    /// Handles a key that asks something of the outside world.
    fn handle_asking_key(&mut self, key: Key) -> (r: Option<Effect>)
        requires
            old(self).wf(),
        ensures
            (final(self)@, effect_model(r)) == old(self)@.asking_key(key),
            final(self).wf(),
    {
        reveal(AppModel::asking_key);
        match key {
            Key::Char('r') => Some(Effect::Reload),
            Key::Char('z') => Some(Effect::Lazygit),
            Key::Char('y') => Some(Effect::Yazi),
            Key::Char('f') => Some(Effect::PickFile),
            Key::Char('s') => self.search(SearchScope::Project),
            Key::Char('/') => self.search(SearchScope::File),
            Key::Char('e') => self.open_editor(),
            _ => None,
        }
    }

    /// Handles a key that no mode has taken.
    fn handle_bound_key(&mut self, key: Key) -> (r: Option<Effect>)
        requires
            old(self).wf(),
        ensures
            (final(self)@, effect_model(r)) == old(self)@.bound_key(key),
            final(self).wf(),
    {
        reveal(AppModel::bound_key);
        if self.handle_moving_key(key) {
            None
        } else if self.handle_switching_key(key) {
            None
        } else {
            self.handle_asking_key(key)
        }
    }

    /// Handles a key while a file is shown.
    fn handle_file_key(&mut self, key: Key) -> (r: Option<Effect>)
        requires
            old(self).wf(),
        ensures
            (final(self)@, effect_model(r)) == old(self)@.file_key(key),
            final(self).wf(),
    {
        reveal(AppModel::file_key);
        if !self.annotate {
            match key {
                Key::Char('n') => {
                    self.enter_annotate(None);
                    None
                },
                Key::Char('v') => {
                    self.enter_annotate(Some(SelKind::Char));
                    None
                },
                Key::Char('V') => {
                    self.enter_annotate(Some(SelKind::Line));
                    None
                },
                _ => self.handle_bound_key(key),
            }
        } else if self.focus == Focus::Left {
            match key {
                Key::Char('n') => {
                    self.set_focus(Focus::Right);
                    None
                },
                Key::Char('v') | Key::Char('V') => {
                    self.set_focus(Focus::Right);
                    self.handle_cursor_key(key).1
                },
                _ => self.handle_bound_key(key),
            }
        } else {
            let (consumed, effect) = self.handle_cursor_key(key);
            if consumed {
                effect
            } else {
                self.handle_bound_key(key)
            }
        }
    }

    fn set_help(&mut self, show_help: bool)
        requires
            old(self).wf(),
        ensures
            final(self)@ == (AppModel { show_help, ..old(self)@ }),
            final(self).wf(),
    {
        self.show_help = show_help;
    }

    /// Handles a key that is not about leaving the program.
    fn handle_plain_key(&mut self, key: Key, ctrl: bool, at: &Moment) -> (r: Option<Effect>)
        requires
            old(self).wf(),
        ensures
            (final(self)@, effect_model(r)) == old(self)@.plain_key(key, ctrl, at.id, at.created_at@),
            final(self).wf(),
    {
        if self.input.is_some() {
            return self.handle_input_key(key, ctrl, at);
        }
        if self.find.is_some() {
            self.handle_find_key(key, ctrl);
            return None;
        }
        if key == Key::Char('?') {
            let show_help = !self.show_help;
            self.set_help(show_help);
            return None;
        }
        if self.show_help {
            self.set_help(false);
            return None;
        }
        let on_file = match &self.view {
            Subject::File { .. } => true,
            Subject::Home => false,
        };
        if on_file {
            self.handle_file_key(key)
        } else {
            self.handle_bound_key(key)
        }
    }

    /// Handles Ctrl+C.
    fn interrupt(&mut self, now: u64)
        requires
            old(self).wf(),
        ensures
            final(self)@ == old(self)@.interrupted(now),
            final(self).wf(),
    {
        let confirmed = match self.pending_quit {
            Some(t) => now <= t || now - t < QUIT_WINDOW,
            None => false,
        };
        if confirmed {
            self.quit = true;
        } else {
            self.pending_quit = Some(now);
            self.message = "Press Ctrl+C again to exit (or Ctrl+D)".to_string();
        }
    }

    /// Cancels a pending Ctrl+C and clears the status line.
    fn settle(&mut self)
        requires
            old(self).wf(),
        ensures
            final(self)@ == old(self)@.settled(),
            final(self).wf(),
    {
        self.pending_quit = None;
        self.message = String::new();
        assert(self.message@ =~= Seq::empty());
    }

    fn leave(&mut self)
        requires
            old(self).wf(),
        ensures
            final(self)@ == (AppModel { quit: true, ..old(self)@ }),
            final(self).wf(),
    {
        self.quit = true;
    }

    /// Handles a key. Exit is Ctrl+D once, or Ctrl+C twice within the window. What
    /// is returned is asked of the outside world.
    pub fn handle_key(&mut self, key: Key, ctrl: bool, at: &Moment) -> (r: Option<Effect>)
        requires
            old(self).wf(),
        ensures
            (final(self)@, effect_model(r)) == old(self)@.key_pressed(
                key,
                ctrl,
                at.now,
                at.id,
                at.created_at@,
            ),
            final(self).wf(),
    {
        if ctrl && (key == Key::Char('d') || key == Key::Char('D')) {
            self.leave();
            return None;
        }
        if ctrl && (key == Key::Char('c') || key == Key::Char('C')) {
            self.interrupt(at.now);
            return None;
        }
        if ctrl && (key == Key::Char('z') || key == Key::Char('Z')) {
            return Some(Effect::Suspend);
        }
        self.settle();
        self.handle_plain_key(key, ctrl, at)
    }
}

// ---- What the switches promise -----------------------------------------------

/// Each switch changes what it is for, and pressed twice it changes it back.
pub proof fn switches_go_back_and_forth(m: AppModel)
    ensures
        m.list_toggled().show_left == !m.show_left,
        m.list_toggled().list_toggled().show_left == m.show_left,
        m.wrap_toggled().wrap == !m.wrap,
        m.wrap_toggled().needs_render,
        m.refresh_toggled().auto_refresh == !m.auto_refresh,
        m.mode_toggled().file_list_mode != m.file_list_mode,
        m.mode_toggled().mode_toggled().file_list_mode == m.file_list_mode,
        m.hidden_toggled().show_hidden == !m.show_hidden,
        m.laid_out(DiffMode::SideBySide).is_side_by_side(),
        !m.laid_out(DiffMode::Stacked).is_side_by_side(),
        m.show_left ==> m.list_toggled().focus == Focus::Right,
        !m.show_left ==> m.list_toggled().focus == Focus::Left,
{
}

/// Keys go to what is shown, where nothing is typed in, no help is up, and the cursor of
/// an annotated file does not have the focus.
#[verifier::rlimit(40)]
pub proof fn keys_go_to_what_is_shown(m: AppModel, key: Key, now: u64, id: u64, created_at: Seq<char>)
    requires
        m.input is None,
        m.find is None,
        !m.show_help,
        !(m.view is File) || !m.annotate || m.focus == Focus::Left,
        key != Key::Char('?'),
        m.view is File ==> key != Key::Char('n') && key != Key::Char('v') && key != Key::Char('V'),
    ensures
        m.key_pressed(key, false, now, id, created_at) == m.settled().bound_key(key),
{
    reveal(AppModel::file_key);
}

proof fn lemma_bound_keys(s: AppModel)
    ensures
        s.bound_key(Key::Char('S')) == (s.list_toggled(), None::<EffectModel>),
        s.bound_key(Key::Char('C')) == (s.mode_toggled(), None::<EffectModel>),
        s.bound_key(Key::Char('.')) == (s.hidden_toggled(), None::<EffectModel>),
        s.bound_key(Key::Char('W')) == (s.wrap_toggled(), None::<EffectModel>),
        s.bound_key(Key::Char('R')) == (s.refresh_toggled(), None::<EffectModel>),
        s.bound_key(Key::Char('1')) == (s.laid_out(DiffMode::Stacked), None::<EffectModel>),
        s.bound_key(Key::Char('2')) == (s.laid_out(DiffMode::SideBySide), None::<EffectModel>),
        s.bound_key(Key::Char('3')) == (s.laid_out(DiffMode::Auto), None::<EffectModel>),
        s.bound_key(Key::Char('l')).0 == s.focusing(Focus::Right),
        s.show_left ==> s.bound_key(Key::Char('h')).0 == s.focusing(Focus::Left),
        s.bound_key(Key::Char('r')) == (s, Some(EffectModel::Reload)),
        s.bound_key(Key::Char('z')) == (s, Some(EffectModel::Lazygit)),
        s.bound_key(Key::Char('y')) == (s, Some(EffectModel::Yazi)),
        s.bound_key(Key::Char('f')) == (s, Some(EffectModel::PickFile)),
        s.bound_key(Key::Char('s')) == s.searching(SearchScope::Project),
        s.bound_key(Key::Char('/')) == s.searching(SearchScope::File),
        s.bound_key(Key::Char('H')) == (s.at_row(0), None::<EffectModel>),
{
    reveal(AppModel::bound_key);
    reveal(AppModel::moving_key);
    reveal(AppModel::switching_key);
    reveal(AppModel::asking_key);
}

/// The keys do what the help says of them, where nothing is typed in, no help is up and
/// no cursor has the focus.
#[verifier::rlimit(40)]
pub proof fn keys_are_bound(m: AppModel, now: u64, id: u64, created_at: Seq<char>)
    requires
        m.input is None,
        m.find is None,
        !m.show_help,
        !(m.view is File) || !m.annotate || m.focus == Focus::Left,
    ensures
        ({
            let s = m.settled();
            let press = |key: Key| m.key_pressed(key, false, now, id, created_at);
            &&& press(Key::Char('S')) == (s.list_toggled(), None::<EffectModel>)
            &&& press(Key::Char('C')) == (s.mode_toggled(), None::<EffectModel>)
            &&& press(Key::Char('.')) == (s.hidden_toggled(), None::<EffectModel>)
            &&& press(Key::Char('W')) == (s.wrap_toggled(), None::<EffectModel>)
            &&& press(Key::Char('R')) == (s.refresh_toggled(), None::<EffectModel>)
            &&& press(Key::Char('1')) == (s.laid_out(DiffMode::Stacked), None::<EffectModel>)
            &&& press(Key::Char('2')) == (s.laid_out(DiffMode::SideBySide), None::<EffectModel>)
            &&& press(Key::Char('3')) == (s.laid_out(DiffMode::Auto), None::<EffectModel>)
            &&& press(Key::Char('l')).0.focus == Focus::Right
            &&& m.show_left ==> press(Key::Char('h')).0.focus == Focus::Left
            &&& press(Key::Char('r')) == (s, Some(EffectModel::Reload))
            &&& press(Key::Char('z')) == (s, Some(EffectModel::Lazygit))
            &&& press(Key::Char('y')) == (s, Some(EffectModel::Yazi))
            &&& press(Key::Char('f')) == (s, Some(EffectModel::PickFile))
            &&& press(Key::Char('s')) == s.searching(SearchScope::Project)
            &&& press(Key::Char('/')) == s.searching(SearchScope::File)
            &&& press(Key::Char('H')) == (s.at_row(0), None::<EffectModel>)
            &&& press(Key::Char('?')).0.show_help
        }),
{
    keys_go_to_what_is_shown(m, Key::Char('S'), now, id, created_at);
    keys_go_to_what_is_shown(m, Key::Char('C'), now, id, created_at);
    keys_go_to_what_is_shown(m, Key::Char('.'), now, id, created_at);
    keys_go_to_what_is_shown(m, Key::Char('W'), now, id, created_at);
    keys_go_to_what_is_shown(m, Key::Char('R'), now, id, created_at);
    keys_go_to_what_is_shown(m, Key::Char('1'), now, id, created_at);
    keys_go_to_what_is_shown(m, Key::Char('2'), now, id, created_at);
    keys_go_to_what_is_shown(m, Key::Char('3'), now, id, created_at);
    keys_go_to_what_is_shown(m, Key::Char('l'), now, id, created_at);
    keys_go_to_what_is_shown(m, Key::Char('h'), now, id, created_at);
    keys_go_to_what_is_shown(m, Key::Char('r'), now, id, created_at);
    keys_go_to_what_is_shown(m, Key::Char('z'), now, id, created_at);
    keys_go_to_what_is_shown(m, Key::Char('y'), now, id, created_at);
    keys_go_to_what_is_shown(m, Key::Char('f'), now, id, created_at);
    keys_go_to_what_is_shown(m, Key::Char('s'), now, id, created_at);
    keys_go_to_what_is_shown(m, Key::Char('/'), now, id, created_at);
    keys_go_to_what_is_shown(m, Key::Char('H'), now, id, created_at);
    lemma_bound_keys(m.settled());
}

/// A search covers the file that is shown, the whole project, or the files that have
/// changed, by the key and the list.
pub proof fn searches_cover_what_is_listed(m: AppModel, path: Seq<char>, line: Option<usize>)
    ensures
        m.view == SubjectModel::File(path, line) ==> (m.searching(SearchScope::File).1 matches Some(
            EffectModel::Search(targets, _, _),
        ) && targets == seq![path]),
        m.view is Home ==> m.searching(SearchScope::File).1 is None,
        m.file_list_mode == FileListMode::All ==> (m.searching(SearchScope::Project).1 matches Some(
            EffectModel::Search(targets, _, _),
        ) && targets.len() == 0),
        m.file_list_mode == FileListMode::Changes && m.files.len() > 0 ==> (m.searching(SearchScope::Project).1 matches Some(
            EffectModel::Search(targets, _, _),
        ) && targets.len() == m.files.len() && forall|i: int|
            0 <= i < targets.len() ==> #[trigger] targets[i] == m.files[i].path),
        m.file_list_mode == FileListMode::Changes && m.files.len() == 0 ==> m.searching(SearchScope::Project).1 is None,
{
}

/// `n` enters the annotate view at the top of the file, `v` and `V` with a selection
/// started there.
pub proof fn annotating_starts_at_the_top(m: AppModel, now: u64, id: u64, created_at: Seq<char>)
    requires
        m.input is None,
        m.find is None,
        !m.show_help,
        m.view is File,
        !m.annotate,
    ensures
        ({
            let n = m.key_pressed(Key::Char('n'), false, now, id, created_at).0;
            let v = m.key_pressed(Key::Char('v'), false, now, id, created_at).0;
            let w = m.key_pressed(Key::Char('V'), false, now, id, created_at).0;
            &&& n.annotate && n.scroll == 0 && n.focus == Focus::Right
            &&& n.cursor == Some(CursorState { line: 1, col: 0, anchor: None, kind: SelKind::Char })
            &&& v.annotate && v.cursor == Some(
                CursorState { line: 1, col: 0, anchor: Some((1, 0)), kind: SelKind::Char },
            )
            &&& w.annotate && w.cursor == Some(
                CursorState { line: 1, col: 0, anchor: Some((1, 0)), kind: SelKind::Line },
            )
        }),
{
    reveal(AppModel::file_key);
}

}

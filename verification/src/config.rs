//! Settings: those of the user, and what the project overrides.

use crate::text::{copy_text, text_in};
use vstd::prelude::*;

verus! {

#[derive(Debug, Clone)]
pub struct Config {
    pub theme: Option<String>,
    pub mode: Option<String>,
    pub vcs: Option<String>,
    pub watch: Option<bool>,
    pub exclude_untracked: Option<bool>,
    pub line_numbers: Option<bool>,
    pub wrap_lines: Option<bool>,
    pub menu_bar: Option<bool>,
    pub agent_notes: Option<bool>,
    pub transparent_background: Option<bool>,
}

/// What the settings are.
#[verifier::ext_equal]
pub struct ConfigModel {
    pub theme: Option<Seq<char>>,
    pub mode: Option<Seq<char>>,
    pub vcs: Option<Seq<char>>,
    pub watch: Option<bool>,
    pub exclude_untracked: Option<bool>,
    pub line_numbers: Option<bool>,
    pub wrap_lines: Option<bool>,
    pub menu_bar: Option<bool>,
    pub agent_notes: Option<bool>,
    pub transparent_background: Option<bool>,
}

impl View for Config {
    type V = ConfigModel;

    open spec fn view(&self) -> ConfigModel {
        ConfigModel {
            theme: text_in(self.theme),
            mode: text_in(self.mode),
            vcs: text_in(self.vcs),
            watch: self.watch,
            exclude_untracked: self.exclude_untracked,
            line_numbers: self.line_numbers,
            wrap_lines: self.wrap_lines,
            menu_bar: self.menu_bar,
            agent_notes: self.agent_notes,
            transparent_background: self.transparent_background,
        }
    }
}

/// The settings of a file that was found and could be read.
pub open spec fn settings(config: Option<Config>) -> Option<ConfigModel> {
    match config {
        Some(c) => Some(c@),
        None => None,
    }
}

impl ConfigModel {
    /// Nothing is set.
    pub open spec fn unset() -> ConfigModel {
        ConfigModel {
            theme: None,
            mode: None,
            vcs: None,
            watch: None,
            exclude_untracked: None,
            line_numbers: None,
            wrap_lines: None,
            menu_bar: None,
            agent_notes: None,
            transparent_background: None,
        }
    }

    /// What the settings become with those of a project: it overrides the theme,
    /// the mode, line numbers, wrapping and the menu bar where it sets them, and
    /// nothing else.
    pub open spec fn overridden(self, project: ConfigModel) -> ConfigModel {
        ConfigModel {
            theme: if project.theme is Some { project.theme } else { self.theme },
            mode: if project.mode is Some { project.mode } else { self.mode },
            line_numbers: if project.line_numbers is Some {
                project.line_numbers
            } else {
                self.line_numbers
            },
            wrap_lines: if project.wrap_lines is Some { project.wrap_lines } else { self.wrap_lines },
            menu_bar: if project.menu_bar is Some { project.menu_bar } else { self.menu_bar },
            ..self
        }
    }
}

/// The settings in force, by those of the user and those of the project.
pub open spec fn in_force(user: Option<ConfigModel>, project: Option<ConfigModel>) -> ConfigModel {
    let base = match user {
        Some(c) => c,
        None => ConfigModel::unset(),
    };
    match project {
        Some(c) => base.overridden(c),
        None => base,
    }
}

fn either_flag(first: Option<bool>, second: Option<bool>) -> (r: Option<bool>)
    ensures
        r == (if first is Some { first } else { second }),
{
    if first.is_some() {
        first
    } else {
        second
    }
}

fn either_text(first: &Option<String>, second: &Option<String>) -> (r: Option<String>)
    ensures
        text_in(r) == (if first is Some { text_in(*first) } else { text_in(*second) }),
{
    if first.is_some() {
        copy_text(first)
    } else {
        copy_text(second)
    }
}

impl Default for Config {
    fn default() -> (r: Config)
        ensures
            r@ == ConfigModel::unset(),
    {
        Config {
            theme: None,
            mode: None,
            vcs: None,
            watch: None,
            exclude_untracked: None,
            line_numbers: None,
            wrap_lines: None,
            menu_bar: None,
            agent_notes: None,
            transparent_background: None,
        }
    }
}

impl Config {
    /// The settings in force, from the file of the user and that of the project,
    /// as far as they could be read.
    pub fn load(user: Option<Config>, project: Option<Config>) -> (r: Config)
        ensures
            r@ == in_force(settings(user), settings(project)),
    {
        let base = match user {
            Some(c) => c,
            None => Config::default(),
        };
        match project {
            Some(c) => Config {
                theme: either_text(&c.theme, &base.theme),
                mode: either_text(&c.mode, &base.mode),
                vcs: copy_text(&base.vcs),
                watch: base.watch,
                exclude_untracked: base.exclude_untracked,
                line_numbers: either_flag(c.line_numbers, base.line_numbers),
                wrap_lines: either_flag(c.wrap_lines, base.wrap_lines),
                menu_bar: either_flag(c.menu_bar, base.menu_bar),
                agent_notes: base.agent_notes,
                transparent_background: base.transparent_background,
            },
            None => base,
        }
    }
}

// ---- What merging promises ---------------------------------------------------

/// A project overrides what it sets of the theme, the mode, line numbers, wrapping and
/// the menu bar. All else is as the user has set it, whatever the project says.
pub proof fn project_overrides_the_user(user: ConfigModel, project: ConfigModel)
    ensures
        ({
            let c = in_force(Some(user), Some(project));
            &&& project.theme is Some ==> c.theme == project.theme
            &&& project.theme is None ==> c.theme == user.theme
            &&& project.mode is Some ==> c.mode == project.mode
            &&& project.mode is None ==> c.mode == user.mode
            &&& project.line_numbers is Some ==> c.line_numbers == project.line_numbers
            &&& project.line_numbers is None ==> c.line_numbers == user.line_numbers
            &&& project.wrap_lines is Some ==> c.wrap_lines == project.wrap_lines
            &&& project.wrap_lines is None ==> c.wrap_lines == user.wrap_lines
            &&& project.menu_bar is Some ==> c.menu_bar == project.menu_bar
            &&& project.menu_bar is None ==> c.menu_bar == user.menu_bar
            &&& c.vcs == user.vcs && c.watch == user.watch && c.exclude_untracked == user.exclude_untracked
            &&& c.agent_notes == user.agent_notes
            &&& c.transparent_background == user.transparent_background
        }),
        in_force(Some(user), None) == user,
        in_force(None, Some(project)).theme == project.theme,
        in_force(None, Some(project)).watch is None,
{
}

}

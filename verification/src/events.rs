//! What comes in from the terminal, and what is asked of the outside world in
//! return.

use crate::calendar::{is_timestamp, now_iso8601, unique_id};
use crate::notebook::{SaveAction, SaveModel};
use crate::text::texts;
use vstd::prelude::*;

verus! {

/// A key of the keyboard.
#[derive(Clone, Copy, Debug, PartialEq, Eq, Structural)]
pub enum Key {
    Char(char),
    Enter,
    Esc,
    Backspace,
    Delete,
    Left,
    Right,
    Up,
    Down,
    Home,
    End,
    PageUp,
    PageDown,
    Other,
}

/// What the mouse does.
#[derive(Clone, Copy, Debug, PartialEq, Eq, Structural)]
pub enum MouseKind {
    ScrollDown,
    ScrollUp,
    LeftDown,
    LeftDrag,
    LeftUp,
    Other,
}

/// The moment at which a key is pressed.
#[derive(Clone, Debug)]
pub struct Moment {
    /// Nanoseconds on a clock that never goes back.
    pub now: u64,
    /// The id of a note that is made now.
    pub id: u64,
    /// The time stamp of a note that is made now.
    pub created_at: String,
}

impl Moment {
    /// The moment that it is, at `now` on the clock that never goes back. Nothing is
    /// promised of the id, which comes from the clock.
    pub fn at(now: u64) -> (r: Moment)
        ensures
            r.now == now,
            is_timestamp(r.created_at@),
    {
        Moment { now, id: unique_id(), created_at: now_iso8601() }
    }
}

/// What is asked of the outside world.
#[derive(Debug)]
pub enum Effect {
    /// Suspend the program to the background.
    Suspend,
    /// Read the files and the notes anew.
    Reload,
    /// Open lazygit, then read everything anew.
    Lazygit,
    /// Let a file be picked in yazi.
    Yazi,
    /// Let a file be picked in fzf.
    PickFile,
    /// Let a line be searched for, in these files or in all.
    Search { targets: Vec<String>, prompt: String, header: String },
    /// Open a file in the editor, then read everything anew.
    Edit { path: String, line: Option<usize> },
    /// Put a text on the clipboard.
    Copy { text: String },
    /// Store notes; it does not matter if that fails.
    Save { action: SaveAction },
    /// Store notes and report how that went.
    Commit { action: SaveAction, updated: bool },
}

/// What is asked of the outside world.
pub enum EffectModel {
    Suspend,
    Reload,
    Lazygit,
    Yazi,
    PickFile,
    Search(Seq<Seq<char>>, Seq<char>, Seq<char>),
    Edit(Seq<char>, Option<usize>),
    Copy(Seq<char>),
    Save(SaveModel),
    Commit(SaveModel, bool),
}

impl View for Effect {
    type V = EffectModel;

    open spec fn view(&self) -> EffectModel {
        match *self {
            Effect::Suspend => EffectModel::Suspend,
            Effect::Reload => EffectModel::Reload,
            Effect::Lazygit => EffectModel::Lazygit,
            Effect::Yazi => EffectModel::Yazi,
            Effect::PickFile => EffectModel::PickFile,
            Effect::Search { targets, prompt, header } => EffectModel::Search(
                texts(targets@),
                prompt@,
                header@,
            ),
            Effect::Edit { path, line } => EffectModel::Edit(path@, line),
            Effect::Copy { text } => EffectModel::Copy(text@),
            Effect::Save { action } => EffectModel::Save(action@),
            Effect::Commit { action, updated } => EffectModel::Commit(action@, updated),
        }
    }
}

/// What is asked of the outside world, if anything.
pub open spec fn effect_model(e: Option<Effect>) -> Option<EffectModel> {
    match e {
        Some(x) => Some(x@),
        None => None,
    }
}

}

//! Review-first terminal diff viewer: the logic behind the interface.
//!
//! Text and numbers are in `text`, `number` and `calendar`; diffs in `diff` and
//! `git`; notes in `notes` and `notebook`; the application that takes notes in
//! `app` and the modules after it; the plain viewer in `ui`. What holds of the
//! application as a whole is proved in `laws`.
pub mod text;
pub mod number;
pub mod calendar;
pub mod notes;
pub mod notebook;
pub mod diff;
pub mod git;
pub mod external;
pub mod motion;
pub mod input;
pub mod style;
pub mod render;
pub mod screen;
pub mod hunks;
pub mod events;
pub mod app;
pub mod annotate;
pub mod annotation;
pub mod keys;
pub mod mouse;
pub mod draw;
pub mod session;
pub mod laws;
pub mod ui;
pub mod config;
pub mod cli;

//! The viewer of a list of diffs: its search, its panels and its colors.
pub mod diff_view;
pub mod highlight;
pub mod search;
pub mod sidebar;
pub mod status_bar;

//! The screen: rectangles, and how it is divided between the panels.

use ratatui::layout::{Constraint, Direction, Layout, Rect as Area};
use vstd::prelude::*;

verus! {

/// A rectangle of terminal cells.
#[derive(Clone, Copy, Debug, PartialEq, Eq, Structural)]
pub struct Rect {
    pub x: u16,
    pub y: u16,
    pub width: u16,
    pub height: u16,
}

impl Rect {
    /// Whether the right and the bottom edge are on the grid.
    pub open spec fn wf(self) -> bool {
        self.x + self.width <= u16::MAX && self.y + self.height <= u16::MAX
    }

    /// Whether the cell in column `col` and row `row` is inside.
    pub open spec fn holds(self, col: u16, row: u16) -> bool {
        self.x <= col < self.x + self.width && self.y <= row < self.y + self.height
    }

    /// Whether `other` is inside.
    pub open spec fn encloses(self, other: Rect) -> bool {
        &&& self.x <= other.x
        &&& other.x + other.width <= self.x + self.width
        &&& self.y <= other.y
        &&& other.y + other.height <= self.y + self.height
    }
}

/// Whether `(col, row)` falls inside `area`.
pub fn contains(area: Rect, col: u16, row: u16) -> (r: bool)
    ensures
        r == area.holds(col, row),
{
    col >= area.x && (col as u32) < area.x as u32 + area.width as u32 && row >= area.y && (row as u32)
        < area.y as u32 + area.height as u32
}

/// How much of `total` is left after `part`; nothing if it is more.
pub open spec fn left_of(total: int, part: int) -> int {
    if part < total { total - part } else { 0 }
}

/// The smaller of two numbers.
pub open spec fn least(a: int, b: int) -> int {
    if a <= b { a } else { b }
}

/// The larger of two numbers.
pub open spec fn greatest(a: int, b: int) -> int {
    if a <= b { b } else { a }
}

/// `n` in 16 bits.
pub open spec fn truncated(n: int) -> int {
    n % 0x1_0000
}

/// `n` in 16 bits.
pub fn truncate_u16(n: usize) -> (r: u16)
    ensures
        r == truncated(n as int),
{
    (n % 0x1_0000) as u16
}

/// The rectangle of the given size in the middle of `area`, or as much of it as
/// there is room for.
pub open spec fn centered(width: u16, height: u16, area: Rect) -> Rect {
    Rect {
        x: (area.x + left_of(area.width as int, width as int) / 2) as u16,
        y: (area.y + left_of(area.height as int, height as int) / 2) as u16,
        width: least(width as int, area.width as int) as u16,
        height: least(height as int, area.height as int) as u16,
    }
}

/// A centered rect of the given size within `area`.
pub fn centered_rect(width: u16, height: u16, area: Rect) -> (r: Rect)
    requires
        area.wf(),
    ensures
        r == centered(width, height, area),
{
    let dx = if width < area.width {
        area.width - width
    } else {
        0
    };
    let dy = if height < area.height {
        area.height - height
    } else {
        0
    };
    Rect {
        x: area.x + dx / 2,
        y: area.y + dy / 2,
        width: if width <= area.width {
            width
        } else {
            area.width
        },
        height: if height <= area.height {
            height
        } else {
            area.height
        },
    }
}

/// A centered rectangle is inside the area, of the size that was asked for where
/// there is room, and no further from one side than from the other by more than
/// a cell.
pub proof fn centered_rect_is_inside(width: u16, height: u16, area: Rect)
    requires
        area.wf(),
    ensures
        ({
            let r = centered(width, height, area);
            &&& area.encloses(r)
            &&& width <= area.width ==> r.width == width
            &&& height <= area.height ==> r.height == height
            &&& 0 <= (area.x + area.width - (r.x + r.width)) - (r.x - area.x) <= 1
            &&& 0 <= (area.y + area.height - (r.y + r.height)) - (r.y - area.y) <= 1
        }),
{
}

// ---- Panels ------------------------------------------------------------------

/// How long a part is: at least so many cells, or so many.
#[derive(Clone, Copy, Debug, PartialEq, Eq, Structural)]
pub enum Bound {
    Min(u16),
    Length(u16),
}

/// How two parts lie to each other.
#[derive(Clone, Copy, Debug, PartialEq, Eq, Structural)]
pub enum Axis {
    /// One below the other.
    Vertical,
    /// One beside the other.
    Horizontal,
}

/// How many of `size` cells the first of two parts gets, where one is of so many
/// cells and the other takes the rest, but no fewer than its least number while
/// there are as many. `None` for two lengths or two least lengths.
pub open spec fn first_size(size: int, first: Bound, second: Bound) -> Option<int> {
    match (first, second) {
        (Bound::Min(m), Bound::Length(l)) => Some(size - least(l as int, left_of(size, m as int))),
        (Bound::Length(l), Bound::Min(m)) => Some(least(l as int, left_of(size, m as int))),
        _ => None,
    }
}

/// The least number of cells among the bounds.
pub open spec fn least_of(first: Bound, second: Bound) -> u16 {
    match (first, second) {
        (Bound::Min(m), _) => m,
        (_, Bound::Min(m)) => m,
        _ => 0,
    }
}

/// The two parts of `area` of which the first has `n` cells along the axis.
pub open spec fn cut(area: Rect, axis: Axis, n: int) -> (Rect, Rect) {
    match axis {
        Axis::Vertical => (
            Rect { height: n as u16, ..area },
            Rect { y: (area.y + n) as u16, height: (area.height - n) as u16, ..area },
        ),
        Axis::Horizontal => (
            Rect { width: n as u16, ..area },
            Rect { x: (area.x + n) as u16, width: (area.width - n) as u16, ..area },
        ),
    }
}

/// How many cells `area` has along the axis.
pub open spec fn extent(area: Rect, axis: Axis) -> int {
    match axis {
        Axis::Vertical => area.height as int,
        Axis::Horizontal => area.width as int,
    }
}

/// `ratatui::layout::Layout::split` of `area` into two parts, one of which has a
/// length and the other a least length (within the range of `i16`, in which ratatui
/// holds it). The parts follow each other and fill the area. The one with the
/// length has it, as long as the other has its least, which comes first in
/// ratatui's order of priorities.
#[verifier::external_body]
fn split_in_two(area: Rect, axis: Axis, first: Bound, second: Bound) -> (r: (Rect, Rect))
    requires
        area.wf(),
        first_size(extent(area, axis), first, second) is Some,
        least_of(first, second) <= i16::MAX,
    ensures
        r == cut(area, axis, first_size(extent(area, axis), first, second).unwrap()),
{
    let direction = match axis {
        Axis::Vertical => Direction::Vertical,
        Axis::Horizontal => Direction::Horizontal,
    };
    let bound = |b: Bound| match b {
        Bound::Min(n) => Constraint::Min(n),
        Bound::Length(n) => Constraint::Length(n),
    };
    let rect = |r: Area| Rect { x: r.x, y: r.y, width: r.width, height: r.height };
    let whole = Area { x: area.x, y: area.y, width: area.width, height: area.height };
    let layout = Layout::default().direction(direction);
    let parts = layout.constraints([bound(first), bound(second)]).split(whole);
    (rect(parts[0]), rect(parts[1]))
}

/// The list, the preview and the footer, where the screen has been divided into
/// `rows` and the upper one, if the list is shown, into `cols`.
pub open spec fn arranged(rows: (Rect, Rect), cols: (Rect, Rect), show_left: bool) -> (Rect, Rect, Rect) {
    if show_left {
        (cols.0, cols.1, rows.1)
    } else {
        (Rect { width: 0, ..rows.0 }, rows.0, rows.1)
    }
}

/// The list, the preview and the footer.
pub fn arrange(rows: (Rect, Rect), cols: (Rect, Rect), show_left: bool) -> (r: (Rect, Rect, Rect))
    ensures
        r == arranged(rows, cols, show_left),
{
    if show_left {
        (cols.0, cols.1, rows.1)
    } else {
        let empty = Rect { x: rows.0.x, y: rows.0.y, width: 0, height: rows.0.height };
        (empty, rows.0, rows.1)
    }
}

/// The upper part of the screen, and the footer below it: one row, as long as there
/// is another.
pub open spec fn rows_of(area: Rect) -> (Rect, Rect) {
    cut(area, Axis::Vertical, area.height - least(1, left_of(area.height as int, 1)))
}

/// The list and the preview beside it: the list is `left_width` wide, as long as
/// there is a column left.
pub open spec fn cols_of(area: Rect, left_width: u16) -> (Rect, Rect) {
    cut(area, Axis::Horizontal, least(left_width as int, left_of(area.width as int, 1)))
}

/// The list, the preview and the footer on a screen.
pub open spec fn panels(area: Rect, show_left: bool, left_width: u16) -> (Rect, Rect, Rect) {
    arranged(rows_of(area), cols_of(rows_of(area).0, left_width), show_left)
}

/// Splits a full-screen rect into (list, preview, footer).
///
/// The list gets `left_width` columns; when `show_left` is false it collapses to
/// zero width and the preview takes the whole row.
pub fn layout(area: Rect, show_left: bool, left_width: u16) -> (r: (Rect, Rect, Rect))
    requires
        area.wf(),
    ensures
        r == panels(area, show_left, left_width),
        r.0.wf() && r.1.wf() && r.2.wf(),
{
    let rows = split_in_two(area, Axis::Vertical, Bound::Min(1), Bound::Length(1));
    let cols = split_in_two(rows.0, Axis::Horizontal, Bound::Length(left_width), Bound::Min(1));
    arrange(rows, cols, show_left)
}

/// The panels fill the screen: the footer is its last row, and the list, if it is
/// shown, has the columns that it is to have and the preview the others, as long as
/// there is room for all of them.
pub proof fn panels_fill_the_screen(area: Rect, show_left: bool, left_width: u16)
    requires
        area.wf(),
        area.height >= 2,
        left_width < area.width,
    ensures
        ({
            let (list, preview, footer) = panels(area, show_left, left_width);
            let rest = (area.height - 1) as u16;
            let left = if show_left { left_width } else { 0 };
            &&& footer == Rect { x: area.x, y: (area.y + rest) as u16, width: area.width, height: 1 }
            &&& list == Rect { x: area.x, y: area.y, width: left, height: rest }
            &&& preview == Rect {
                x: (area.x + left) as u16,
                y: area.y,
                width: (area.width - left) as u16,
                height: rest,
            }
        }),
{
}

}

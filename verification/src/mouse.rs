//! What the mouse does.

use crate::app::{App, AppModel, CursorState, Focus, Subject, SubjectModel};
use crate::events::{effect_model, Effect, EffectModel, MouseKind};
use crate::notes::{selected_text, Position, SelKind};
use crate::screen::contains;
use vstd::prelude::*;

verus! {

impl AppModel {
    /// The row of the list that is on the row `row` of the screen, if any. The
    /// first is below the border.
    pub open spec fn row_under(self, row: u16) -> Option<usize> {
        let i = self.offset + (row - (self.list_area.y + 1));
        if row >= self.list_area.y + 1 && i <= self.visible().len() { Some(i as usize) } else { None }
    }

    /// Whether the mouse has no say: while the help is up or something is typed in.
    pub open spec fn is_typing(self) -> bool {
        self.show_help || self.input is Some || self.find is Some
    }

    /// With the cursor at a position that was clicked, and nothing selected. A drag
    /// from there starts a selection.
    pub open spec fn clicked_at(self, p: Position) -> AppModel {
        AppModel {
            cursor: match self.cursor {
                Some(c) => Some(CursorState { line: p.0, col: p.1, anchor: None, ..c }),
                None => None,
            },
            mouse_anchor: Some(p),
            needs_render: true,
            ..self
        }
    }

    /// With the preview focused. A drag over a file selects text.
    pub open spec fn armed(self) -> AppModel {
        AppModel {
            focus: Focus::Right,
            mouse_down_preview: self.view is File,
            mouse_anchor: None,
            ..self
        }
    }

    /// After a click on a cell of the preview.
    pub open spec fn preview_clicked(self, col: u16, row: u16) -> AppModel {
        match self.armed().cell_at(col, row) {
            Some(p) => self.armed().clicked_at(p),
            None => self.armed(),
        }
    }

    /// After a click on a row of the list.
    pub open spec fn list_clicked(self, row: u16) -> AppModel {
        match self.focusing(Focus::Left).row_under(row) {
            Some(i) => self.focusing(Focus::Left).at_row(i as int),
            None => self.focusing(Focus::Left),
        }
    }

    /// With the selection drawn to a position. It starts where the button went
    /// down, if that was on the text.
    pub open spec fn dragged_to(self, p: Position) -> AppModel {
        match self.cursor {
            Some(c) => self.with_cursor(
                if c.anchor is None {
                    CursorState {
                        line: p.0,
                        col: p.1,
                        anchor: match self.mouse_anchor {
                            Some(a) => Some(a),
                            None => Some(p),
                        },
                        kind: SelKind::Char,
                    }
                } else {
                    CursorState { line: p.0, col: p.1, ..c }
                },
            ),
            None => self,
        }
    }

    /// After a drag with the button down. Over a file that is not annotated, this
    /// enters the annotate view first.
    pub open spec fn dragged(self, col: u16, row: u16) -> (AppModel, Option<EffectModel>) {
        if !self.mouse_down_preview {
            (self, None)
        } else if !self.annotate {
            (self.annotating(None), None)
        } else {
            match self.cell_at(col, row) {
                Some(p) => (
                    self.dragged_to(p).following_cursor().stale(),
                    self.dragged_to(p).copying(),
                ),
                None => (self, None),
            }
        }
    }

    /// With the button up again.
    pub open spec fn released(self) -> AppModel {
        AppModel { mouse_down_preview: false, mouse_anchor: None, ..self }
    }

    /// With the drag not yet armed.
    pub open spec fn disarmed(self) -> AppModel {
        AppModel { mouse_down_preview: false, ..self }
    }

    /// After the mouse did something over a cell of the screen.
    pub open spec fn moused(self, kind: MouseKind, col: u16, row: u16) -> (AppModel, Option<EffectModel>) {
        let over_list = self.show_left && self.list_area.holds(col, row);
        let over_preview = self.preview_area.holds(col, row);
        if self.is_typing() {
            (self, None)
        } else {
            match kind {
                MouseKind::ScrollDown => (
                    if over_list { self.next_selected() } else { self.scrolled_by(3) },
                    None,
                ),
                MouseKind::ScrollUp => (
                    if over_list { self.previous_selected() } else { self.scrolled_by(-3) },
                    None,
                ),
                MouseKind::LeftDown => (
                    if over_list {
                        self.disarmed().list_clicked(row)
                    } else if over_preview {
                        self.disarmed().preview_clicked(col, row)
                    } else {
                        self.disarmed()
                    },
                    None,
                ),
                MouseKind::LeftDrag => self.dragged(col, row),
                MouseKind::LeftUp => (self.released(), None),
                MouseKind::Other => (self, None),
            }
        }
    }
}

impl App {
    /// Maps a screen row to a list index (accounting for the border and scroll).
    pub fn list_row_at(&self, row: u16) -> (r: Option<usize>)
        requires
            self.wf(),
        ensures
            r == self@.row_under(row),
    {
        let top = self.list_area.y as u32 + 1;
        if (row as u32) < top {
            return None;
        }
        let i = self.offset as u128 + (row as u32 - top) as u128;
        if i <= self.visible_file_count() as u128 {
            Some(i as usize)
        } else {
            None
        }
    }

    fn arm(&mut self)
        requires
            old(self).wf(),
        ensures
            final(self)@ == old(self)@.armed(),
            final(self).wf(),
    {
        self.focus = Focus::Right;
        self.mouse_down_preview = match &self.view {
            Subject::File { .. } => true,
            Subject::Home => false,
        };
        self.mouse_anchor = None;
    }

    fn disarm(&mut self)
        requires
            old(self).wf(),
        ensures
            final(self)@ == old(self)@.disarmed(),
            final(self).wf(),
    {
        self.mouse_down_preview = false;
    }

    fn release(&mut self)
        requires
            old(self).wf(),
        ensures
            final(self)@ == old(self)@.released(),
            final(self).wf(),
    {
        self.mouse_down_preview = false;
        self.mouse_anchor = None;
    }

    fn click_at(&mut self, p: Position)
        requires
            old(self).wf(),
            p.0 >= 1,
        ensures
            final(self)@ == old(self)@.clicked_at(p),
            final(self).wf(),
    {
        let cursor = match &self.cursor {
            Some(c) => Some(CursorState { line: p.0, col: p.1, anchor: None, kind: c.kind }),
            None => None,
        };
        self.cursor = cursor;
        self.mouse_anchor = Some(p);
        self.needs_render = true;
    }

    fn click_list(&mut self, row: u16)
        requires
            old(self).wf(),
        ensures
            final(self)@ == old(self)@.list_clicked(row),
            final(self).wf(),
    {
        self.set_focus(Focus::Left);
        if let Some(i) = self.list_row_at(row) {
            self.go_to_row(i);
        }
    }

    fn click_preview(&mut self, col: u16, row: u16)
        requires
            old(self).wf(),
        ensures
            final(self)@ == old(self)@.preview_clicked(col, row),
            final(self).wf(),
    {
        self.arm();
        if let Some(p) = self.annotate_cell_at(col, row) {
            self.click_at(p);
        }
    }

    fn drag_to(&mut self, p: Position)
        requires
            old(self).wf(),
            p.0 >= 1,
        ensures
            final(self)@ == old(self)@.dragged_to(p),
            final(self).wf(),
    {
        let next = match &self.cursor {
            Some(c) => if c.anchor.is_none() {
                let anchor = match self.mouse_anchor {
                    Some(a) => Some(a),
                    None => Some(p),
                };
                CursorState { line: p.0, col: p.1, anchor, kind: SelKind::Char }
            } else {
                CursorState { line: p.0, col: p.1, anchor: c.anchor, kind: c.kind }
            },
            None => {
                return;
            },
        };
        self.cursor = Some(next);
    }

    fn drag(&mut self, col: u16, row: u16) -> (r: Option<Effect>)
        requires
            old(self).wf(),
        ensures
            (final(self)@, effect_model(r)) == old(self)@.dragged(col, row),
            final(self).wf(),
    {
        if !self.mouse_down_preview {
            return None;
        }
        if !self.annotate {
            self.enter_annotate(None);
            return None;
        }
        match self.annotate_cell_at(col, row) {
            Some(p) => {
                self.drag_to(p);
                let effect = self.copy_effect();
                self.ensure_cursor_visible();
                self.mark_stale();
                effect
            },
            None => None,
        }
    }

    /// Handles what the mouse does over a cell of the screen. What is returned is
    /// asked of the outside world.
    pub fn handle_mouse(&mut self, kind: MouseKind, col: u16, row: u16) -> (r: Option<Effect>)
        requires
            old(self).wf(),
        ensures
            (final(self)@, effect_model(r)) == old(self)@.moused(kind, col, row),
            final(self).wf(),
    {
        if self.show_help || self.input.is_some() || self.find.is_some() {
            return None;
        }
        let over_preview = contains(self.preview_area, col, row);
        let over_list = self.show_left && contains(self.list_area, col, row);
        match kind {
            MouseKind::ScrollDown => {
                if over_list {
                    self.select_next();
                } else {
                    self.scroll_preview(3);
                }
                None
            },
            MouseKind::ScrollUp => {
                if over_list {
                    self.select_prev();
                } else {
                    self.scroll_preview(-3);
                }
                None
            },
            MouseKind::LeftDown => {
                self.disarm();
                if over_list {
                    self.click_list(row);
                } else if over_preview {
                    self.click_preview(col, row);
                }
                None
            },
            MouseKind::LeftDrag => self.drag(col, row),
            MouseKind::LeftUp => {
                self.release();
                None
            },
            MouseKind::Other => None,
        }
    }
}

// ---- What the mouse promises -------------------------------------------------

/// The wheel moves by one row over the list and by three over the preview, and what
/// moves is what the pointer is over.
pub proof fn wheel_moves_what_it_is_over(m: AppModel, col: u16, row: u16)
    requires
        !m.show_help,
        m.input is None,
        m.find is None,
        m.preview.len() < 0x1_0000,
        m.scroll < 0xFF00,
    ensures
        ({
            let area = m.list_area;
            let over = m.show_left && area.x <= col < area.x + area.width && area.y <= row < area.y + area.height;
            let (down, up) = (m.moused(MouseKind::ScrollDown, col, row).0, m.moused(MouseKind::ScrollUp, col, row).0);
            let height = if m.preview_height > 1 { m.preview_height as int } else { 1int };
            let last = if m.preview.len() > height { m.preview.len() - height } else { 0 };
            &&& over ==> down == m.next_selected() && up == m.previous_selected()
            &&& !over ==> down.scroll == (if m.scroll + 3 > last { last } else { m.scroll + 3 })
            &&& !over ==> up.scroll == (if m.scroll < 3 {
                0
            } else if m.scroll - 3 > last {
                last
            } else {
                m.scroll - 3
            })
            &&& !over ==> down.selected == m.selected && up.selected == m.selected
        }),
{
}

/// A click on a row of the list selects the row that is drawn there and shows it.
pub proof fn click_selects_the_row(m: AppModel, i: usize, col: u16, row: u16)
    requires
        !m.show_help,
        m.input is None,
        m.find is None,
        m.show_left,
        m.list_area.x <= col < m.list_area.x + m.list_area.width,
        m.list_area.y < row < m.list_area.y + m.list_area.height,
        m.offset <= i <= m.visible().len() < usize::MAX,
        row == m.list_area.y + 1 + (i - m.offset),
    ensures
        ({
            let after = m.moused(MouseKind::LeftDown, col, row).0;
            &&& after.selected == Some(i)
            &&& after.focus == Focus::Left
            &&& i == 0 ==> after.view is Home
            &&& i > 0 ==> after.view == SubjectModel::File(m.visible()[i - 1], None)
        }),
{
    let s = m.disarmed().focusing(Focus::Left);
    assert(s.visible() == m.visible());
    assert(s.selecting(Some(i)).visible() == m.visible());
}

/// A drag over the text selects from the character where the button went down to the
/// one under the pointer, and copies what is selected.
pub proof fn drag_selects_the_text(
    m: AppModel,
    c: CursorState,
    a: Position,
    p: Position,
    x: u16,
    y: u16,
    col: u16,
    row: u16,
)
    requires
        !m.show_help,
        m.input is None,
        m.find is None,
        m.annotate,
        m.view is File,
        m.cursor == Some(c),
        m.preview_area.x <= x < m.preview_area.x + m.preview_area.width,
        m.preview_area.y <= y < m.preview_area.y + m.preview_area.height,
        !(m.show_left && m.list_area.x <= x < m.list_area.x + m.list_area.width && m.list_area.y <= y
            < m.list_area.y + m.list_area.height),
        m.cell_at(x, y) == Some(a),
        m.cell_at(col, row) == Some(p),
    ensures
        ({
            let down = m.moused(MouseKind::LeftDown, x, y).0;
            let (moved, copy) = down.moused(MouseKind::LeftDrag, col, row);
            let d = moved.cursor.unwrap();
            &&& down.cursor == Some(CursorState { line: a.0, col: a.1, anchor: None, kind: c.kind })
            &&& moved.cursor is Some
            &&& d.line == p.0 && d.col == p.1
            &&& d.anchor == Some(a)
            &&& d.kind == SelKind::Char
            &&& copy == (match selected_text(SelKind::Char, a, p, m.annotate_lines) {
                Some(t) => Some(EffectModel::Copy(t)),
                None => None,
            })
        }),
{
    let armed = m.disarmed().armed();
    assert(armed.cell_at(x, y) == m.cell_at(x, y));
    let down = armed.clicked_at(a);
    assert(down.cell_at(col, row) == m.cell_at(col, row));
}

/// The button that goes up ends a drag, and while something is typed in or the help is
/// up the mouse does nothing.
pub proof fn mouse_lets_go(m: AppModel, kind: MouseKind, col: u16, row: u16)
    ensures
        m.show_help || m.input is Some || m.find is Some ==> m.moused(kind, col, row) == (m, None::<EffectModel>),
        !(m.show_help || m.input is Some || m.find is Some) ==> !m.moused(
            MouseKind::LeftUp,
            col,
            row,
        ).0.mouse_down_preview,
        !m.mouse_down_preview && kind == MouseKind::LeftDrag ==> m.moused(kind, col, row) == (m, None::<EffectModel>),
{
}

/// A drag over a file that is not annotated enters the annotate view; a click on the
/// preview gives it the focus.
pub proof fn drag_enters_the_annotate_view(m: AppModel, x: u16, y: u16, col: u16, row: u16)
    requires
        !m.show_help,
        m.input is None,
        m.find is None,
        m.view is File,
        !m.annotate,
        m.preview_area.x <= x < m.preview_area.x + m.preview_area.width,
        m.preview_area.y <= y < m.preview_area.y + m.preview_area.height,
        !(m.show_left && m.list_area.x <= x < m.list_area.x + m.list_area.width && m.list_area.y <= y
            < m.list_area.y + m.list_area.height),
    ensures
        ({
            let down = m.moused(MouseKind::LeftDown, x, y).0;
            let moved = down.moused(MouseKind::LeftDrag, col, row).0;
            &&& down.focus == Focus::Right && down.view == m.view
            &&& moved.annotate && moved.cursor is Some && moved.view == m.view
        }),
{
}

}

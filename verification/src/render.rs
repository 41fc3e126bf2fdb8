//! One frame of the board editor: what is drawn, and what the pointer can
//! hit in it.

use vstd::prelude::*;

use crate::app::{App, AppView, Mode, ModeView};
use crate::editing::{clone_table, patch, patched};
use crate::geometry::Rect;
use crate::grid::{inner_rect, within_border, Grid, TableView};
use crate::links::{anchor_frac, anchor_part, find_grid, grid_of, live_near, live_view};
use crate::minimap::MapLayout;
use crate::model::{CellAnchor, Color, ColorView, Edge, Node, NodeView, Shape, Side};
use crate::mouse::drawn_rect;
use crate::paint::{
    corner_cell, corner_rects, display_text, ink_opt, inked, line_look, node_style, opt_ink,
    opt_inked, paint_views, plain, shown_ink, shown_text, Ink, Look, Paint, PaintView,
};
use crate::pointer::{cursor, drag_cell, drag_ghost, drag_key, ghost_in, last_at, moving};
use crate::route::{
    arrow_char, attach, auto_sides, clip, drawn_path, facing, forced_vertical, fully_visible,
    glyphs, head_char, landing, near, on_screen, path, pinned_vertical, place_of, points, route,
    route_glyphs, screen_place, side_point, side_toward, sides_for, steady, to_screen, Glyph,
    Landing, ScreenRect,
};
use crate::sheet::{blank_sheet, draw_color_picker, Sheet, SheetView};
use crate::table::{
    col_center, col_center_frac, cells, encode_break, encoded, half, parse, row_center,
    row_center_frac, table_of, table_view, Cells, Fraction, Table,
};
use crate::target::{
    is_selected, Corner, Endpoint, HitTarget, HitView, Selected, SelectedView, TableOp,
};
use crate::text::{opt_view, same_str};
use crate::wires::{beside, cells_beside, draw_button, wrap, wrapped};

verus! {

/// A cell's own anchor: its row and its column.
pub open spec fn cell_anchor(row: usize, col: usize) -> CellAnchor {
    CellAnchor { row: Some(row), col: Some(col) }
}

/// A cell's own anchor: its row and its column.
pub fn cell_anchor_for(row: usize, col: usize) -> (r: CellAnchor)
    ensures
        r == cell_anchor(row, col),
{
    CellAnchor { row: Some(row), col: Some(col) }
}

/// What the row and column buttons say.
pub open spec fn menu_label(k: int) -> Seq<char> {
    if k == 0 {
        "+col"@
    } else if k == 1 {
        "-col"@
    } else if k == 2 {
        "+row"@
    } else {
        "-row"@
    }
}

/// What the row and column buttons do.
pub open spec fn menu_op(k: int) -> TableOp {
    if k == 0 {
        TableOp::AddCol
    } else if k == 1 {
        TableOp::DelCol
    } else if k == 2 {
        TableOp::AddRow
    } else {
        TableOp::DelRow
    }
}

/// How many row and column buttons there are.
pub const BUTTONS: u16 = 4;

/// How wide a row or column button is.
pub const BUTTON_WIDTH: u16 = 4;

impl SheetView {
    /// The frame with the first `k` row and column buttons, below a box, as
    /// far as they are on the canvas.
    pub open spec fn menu(self, id: Seq<char>, place: Rect, area: Rect, k: int) -> SheetView
        decreases k,
    {
        if k <= 0 {
            self
        } else {
            let before = self.menu(id, place, area, k - 1);
            let x = place.x + (BUTTON_WIDTH + 1) * (k - 1);
            let r = crate::geometry::rect(x as u16, place.y_end(), BUTTON_WIDTH, 1).shared(area);
            if x > u16::MAX || r.empty() {
                before
            } else {
                before.hit(r, HitView::TableMenu(id, menu_op(k - 1))).with(
                    PaintView::Text {
                        area: r,
                        text: menu_label(k - 1),
                        look: inked(Ink::DarkGray),
                    },
                )
            }
        }
    }

    /// The frame with the first `k` cells of a line.
    pub open spec fn line(self, g: Seq<Glyph>, look: Look, k: int) -> SheetView
        decreases k,
    {
        if k <= 0 {
            self
        } else {
            self.line(g, look, k - 1).char(g[k - 1].0, g[k - 1].1, g[k - 1].2, look)
        }
    }

    /// The frame with the outline of a box that is not there yet.
    pub open spec fn ghost_box(self, area: Rect, color: Option<ColorView>) -> SheetView {
        self.with(
            PaintView::Frame {
                area,
                rounded: false,
                look: inked(
                    match opt_ink(color) {
                        Some(i) => i,
                        None => Ink::DarkGray,
                    },
                ),
            },
        )
    }

    /// The frame with dim dots on two sides of a box.
    pub open spec fn dots(
        self,
        rect: ScreenRect,
        a: Side,
        b: Side,
        part: Option<Fraction>,
        at: Landing,
    ) -> SheetView {
        match part {
            Some(part) => {
                let (p, q) = (attach(rect, a, part, at), attach(rect, b, part, at));
                self.char(p.0, p.1, '○', inked(Ink::DarkGray)).char(
                    q.0,
                    q.1,
                    '○',
                    inked(Ink::DarkGray),
                )
            },
            None => self,
        }
    }

    /// The frame with a connector that is still being dragged, drawn the
    /// way that a landed one is.
    pub open spec fn pulled(
        self,
        from: ScreenRect,
        from_grid: Option<Cells>,
        from_anchor: Option<CellAnchor>,
        to: ScreenRect,
        to_grid: Option<Cells>,
        to_anchor: Option<CellAnchor>,
        at: Landing,
    ) -> SheetView {
        let (fv, tv) = (pinned_vertical(from_anchor), pinned_vertical(to_anchor));
        let fs = match fv {
            Some(v) => facing(from, to, v),
            None => auto_sides(from, to).0,
        };
        let ts = match tv {
            Some(v) => facing(to, from, v),
            None => auto_sides(from, to).1,
        };
        let from_part = match fv {
            Some(_) => part_or_half(anchor_part(from_grid, from_anchor, fs, from)),
            None => half(),
        };
        let to_part = match tv {
            Some(_) => part_or_half(anchor_part(to_grid, to_anchor, ts, to)),
            None => half(),
        };
        let sides = if fv is Some || tv is Some {
            Some((fs, ts))
        } else {
            None
        };
        let w = path(from, to, from_part, to_part, sides, at);
        let g = drawn_path(w).filter(beside(from, to));
        let (p, q) = (w.last(), w[w.len() - 2]);
        self.line(g, inked(Ink::DarkGray), g.len() as int).char(
            p.0,
            p.1,
            head_char(p.0 - q.0, p.1 - q.1),
            inked(Ink::DarkGray),
        )
    }
}

/// A part of a side, the middle where there is none.
pub open spec fn part_or_half(part: Option<Fraction>) -> Fraction {
    match part {
        Some(p) => p,
        None => half(),
    }
}

/// What the status line says of the mode.
pub open spec fn mode_text(mode: ModeView) -> Seq<char> {
    match mode {
        ModeView::Normal => "NORMAL"@,
        ModeView::Editing(_) => "EDIT (Esc to leave)"@,
        ModeView::EditingCell(..) =>
            "TABLE (tab/enter/arrows move · alt+enter line break · ctrl+z undo · +col/-col/+row/-row buttons below · esc done)"@,
    }
}

/// What the status line says last.
pub open spec fn hint_text() -> Seq<char> {
    "drag empty space to place · click to select · ● button color picker (box or connector) · dbl-click to edit · t table · drag move · shift+drag connect · corner resize · arrows/wheel pan · m map · o open file/link · y copy · esc then c color / x shape (or ends, on a connector) / d delete · ctrl+z undo · ctrl+y redo · s save · q/esc quit"@
}

impl AppView {
    /// The box that a drag shows elsewhere.
    pub open spec fn hidden(self) -> Option<Seq<char>> {
        match drag_key(self.drag) {
            Some(HitView::Move(id)) => Some(id),
            Some(HitView::Resize(id, _)) => Some(id),
            _ => None,
        }
    }

    /// Where the box that is being dragged is right now.
    pub open spec fn live(self, area: Rect) -> Option<(Seq<char>, ScreenRect)> {
        match self.resizing(area) {
            Some((id, r)) => Some((id, on_screen(r, self.camera, area))),
            None => match (drag_key(self.drag), drag_ghost(self.drag, area)) {
                (Some(HitView::Move(id)), Some(g)) => Some((id, place_of(g))),
                _ => None,
            },
        }
    }

    /// The connector whose end is being pointed elsewhere.
    pub open spec fn loose(self) -> Option<(Seq<char>, Endpoint)> {
        match drag_key(self.drag) {
            Some(HitView::Reattach(id, end)) => Some((id, end)),
            _ => None,
        }
    }

    /// The id of the connector whose end is being pointed elsewhere.
    pub open spec fn loose_id(self) -> Option<Seq<char>> {
        match self.loose() {
            Some((id, _)) => Some(id),
            None => None,
        }
    }

    /// The frame with the places that a connector could be anchored at the
    /// hovered cell: its column's at the top and bottom, its row's at the
    /// left and right.
    pub open spec fn hover_drawn(self, s: SheetView, area: Rect, at: Landing) -> SheetView {
        match self.hover_cell {
            None => s,
            Some((id, a)) => match (self.canvas.node(id), grid_of(self.canvas, id)) {
                (Some(n), Some(t)) => {
                    let r = on_screen(n.rect, self.camera, area);
                    let cols = match a.col {
                        Some(c) => col_center(t, c as int, r.width),
                        None => None,
                    };
                    let rows = match a.row {
                        Some(w) => row_center(t, w as int, r.height),
                        None => None,
                    };
                    s.dots(r, Side::Top, Side::Bottom, cols, at).dots(
                        r,
                        Side::Left,
                        Side::Right,
                        rows,
                        at,
                    )
                },
                _ => s,
            },
        }
    }

    /// The grid that a box is drawn as, if any, and the cell that is being
    /// typed into: the staged grid with the text typed so far while the box
    /// is open, else the one that its text makes.
    pub open spec fn grid_shown(self, n: NodeView) -> Option<(Cells, Option<(usize, usize)>)> {
        match self.mode {
            ModeView::EditingCell(id, r, c) if id == n.id => Some(
                (
                    patched(self.table, r as int, c as int, encoded(self.editing_text)),
                    Some((r, c)),
                ),
            ),
            _ => match table_of(shown_text(n.kind)) {
                Some(t) => Some((t, None)),
                None => None,
            },
        }
    }

    /// The text that a box shows: the one being typed, with the cursor
    /// behind it, or its own.
    pub open spec fn text_shown(self, n: NodeView) -> Seq<char> {
        if self.mode == ModeView::Editing(SelectedView::Node(n.id)) {
            self.editing_text.push('▏')
        } else {
            shown_text(n.kind)
        }
    }

    /// The frame with a box's border and content, given its place.
    pub open spec fn box_drawn(
        self,
        s: SheetView,
        n: NodeView,
        place: Rect,
        at: Landing,
    ) -> SheetView {
        let target = SelectedView::Node(n.id);
        let shown = shown_ink(opt_ink(n.color), self.preview(target));
        let framed = s.with(
            PaintView::Frame {
                area: place,
                rounded: n.shape is Rounded,
                look: line_look(shown, self.selected == Some(target)),
            },
        );
        match self.grid_shown(n) {
            Some((cells, cursor)) => (Grid {
                id: n.id,
                rect: place,
                cells,
                cursor,
                look: opt_inked(shown),
            }).drawn(framed, at),
            None => if self.text_shown(n).len() == 0 {
                framed
            } else {
                framed.with(
                    PaintView::Wrapped {
                        area: within_border(place),
                        text: self.text_shown(n),
                        look: opt_inked(shown),
                    },
                )
            },
        }
    }

    /// The frame with one box: nothing of one that a drag shows elsewhere or
    /// that is off the canvas, a bare frame of one that is only partly on
    /// it. Any part can be grabbed to move it, the corners of a whole one
    /// to resize it.
    pub open spec fn node_drawn(
        self,
        s: SheetView,
        n: NodeView,
        area: Rect,
        at: Landing,
    ) -> SheetView {
        let r = on_screen(n.rect, self.camera, area);
        if self.hidden() == Some(n.id) {
            s
        } else {
            match r.clipped(area) {
                None => s,
                Some(place) => {
                    let s1 = s.hit(place, HitView::Move(n.id));
                    if !r.within(area) {
                        s1.with(PaintView::Frame { area: place, rounded: false, look: plain() })
                    } else {
                        self.box_drawn(
                            s1.hit(
                                corner_cell(place, Corner::TopLeft),
                                HitView::Resize(n.id, Corner::TopLeft),
                            ).hit(
                                corner_cell(place, Corner::TopRight),
                                HitView::Resize(n.id, Corner::TopRight),
                            ).hit(
                                corner_cell(place, Corner::BottomLeft),
                                HitView::Resize(n.id, Corner::BottomLeft),
                            ).hit(
                                corner_cell(place, Corner::BottomRight),
                                HitView::Resize(n.id, Corner::BottomRight),
                            ),
                            n,
                            place,
                            at,
                        )
                    }
                },
            }
        }
    }

    /// The frame with the first `k` boxes.
    pub open spec fn nodes_drawn(
        self,
        s: SheetView,
        area: Rect,
        at: Landing,
        k: int,
    ) -> SheetView
        decreases k,
    {
        if k <= 0 {
            s
        } else {
            self.node_drawn(
                self.nodes_drawn(s, area, at, k - 1),
                self.canvas.nodes[k - 1],
                area,
                at,
            )
        }
    }

    /// The frame with the row and column buttons of the table that is open.
    pub open spec fn menu_drawn(self, s: SheetView, area: Rect) -> SheetView {
        match self.mode {
            ModeView::EditingCell(id, _, _) => match self.canvas.node(id) {
                Some(n) => match on_screen(n.rect, self.camera, area).clipped(area) {
                    Some(place) => s.menu(id, place, area, BUTTONS as int),
                    None => s,
                },
                None => s,
            },
            _ => s,
        }
    }

    /// The frame with the selected box's color button, and its picker while
    /// that is open.
    pub open spec fn button_drawn(self, s: SheetView, area: Rect) -> SheetView {
        match self.selected {
            Some(SelectedView::Node(id)) => match self.canvas.node(id) {
                Some(n) => {
                    let target = SelectedView::Node(id);
                    let r = on_screen(n.rect, self.camera, area);
                    let (x, y) = (wrapped(r.x_end()), wrapped(r.y as int));
                    if r.x_end() < 0 || r.y < 0 || crate::geometry::rect(x, y, 1, 1).shared(
                        area,
                    ).empty() {
                        s
                    } else {
                        let s1 = s.button(target, x, y, opt_ink(n.color), area);
                        if self.color_picker == Some(target) {
                            s1.picker(target, x, (y + 1) as u16, area)
                        } else {
                            s1
                        }
                    }
                },
                None => s,
            },
            _ => s,
        }
    }

    /// The frame with the outline of the box that is being dragged, and of
    /// the one that is being dragged out on empty canvas.
    pub open spec fn ghosts_drawn(self, s: SheetView, area: Rect) -> SheetView {
        let s1 = match self.live(area) {
            Some((id, r)) => match r.clipped(area) {
                Some(place) => s.ghost_box(
                    place,
                    match self.canvas.node(id) {
                        Some(n) => n.color,
                        None => None,
                    },
                ),
                None => s,
            },
            None => s,
        };
        match self.drawing {
            Some((start, end)) => s1.ghost_box(drawn_rect(start, end), None),
            None => s1,
        }
    }

    /// The box that a dragged connector is aimed at, and the anchor that a
    /// drop there would carry: what the frame has to hit at the cursor,
    /// other than the box it comes from.
    pub open spec fn aim(s: SheetView, from: Seq<char>, x: u16, y: u16) -> Option<
        (Seq<char>, Option<CellAnchor>),
    > {
        match last_at(s.hits, x, y) {
            Some((_, HitView::TableCell(id, row, col))) => if id != from {
                Some((id, Some(cell_anchor(row, col))))
            } else {
                None
            },
            Some((_, HitView::AnchorDot(id, a))) => if id != from {
                Some((id, Some(a)))
            } else {
                None
            },
            Some((_, target)) => match target.node() {
                Some(id) => if id != from {
                    Some((id, None))
                } else {
                    None
                },
                None => None,
            },
            None => None,
        }
    }

    /// The frame with a connector that is being dragged from a box, from an
    /// anchor of it, to the cursor: to the box that it is aimed at, or to
    /// the cell itself.
    pub open spec fn pull_drawn(
        self,
        s: SheetView,
        from: NodeView,
        anchor: Option<CellAnchor>,
        cell: (u16, u16),
        aim: Option<(Seq<char>, Option<CellAnchor>)>,
        area: Rect,
        at: Landing,
    ) -> SheetView {
        let (to, to_grid, to_anchor) = match aim {
            Some((id, a)) => match self.canvas.node(id) {
                Some(n) => (
                    on_screen(n.rect, self.camera, area),
                    table_of(shown_text(n.kind)),
                    a,
                ),
                None => (cell_place(cell), None, None),
            },
            None => (cell_place(cell), None, None),
        };
        s.pulled(
            on_screen(from.rect, self.camera, area),
            table_of(shown_text(from.kind)),
            anchor,
            to,
            to_grid,
            to_anchor,
            at,
        )
    }

    /// The frame with the connector that is being drawn.
    pub open spec fn connecting_drawn(self, s: SheetView, area: Rect, at: Landing) -> SheetView {
        match (drag_key(self.drag), drag_cell(self.drag)) {
            (Some(HitView::Connect(from, anchor)), Some((x, y))) => match self.canvas.node(from) {
                Some(n) => self.pull_drawn(
                    s,
                    n,
                    anchor,
                    (x, y),
                    AppView::aim(s, from, x, y),
                    area,
                    at,
                ),
                None => s,
            },
            _ => s,
        }
    }

    /// The frame with the connector whose end is being pointed elsewhere: a
    /// line from the end that stays put to the cursor.
    pub open spec fn reattaching_drawn(self, s: SheetView, area: Rect, at: Landing) -> SheetView {
        match (self.loose(), drag_cell(self.drag)) {
            (Some((id, end)), Some(cell)) => match self.canvas.edge(id) {
                Some(e) => match self.canvas.node(
                    match end {
                        Endpoint::From => e.to,
                        Endpoint::To => e.from,
                    },
                ) {
                    Some(n) => self.pull_drawn(s, n, None, cell, None, area, at),
                    None => s,
                },
                None => s,
            },
            _ => s,
        }
    }

    /// The frame with the status line.
    pub open spec fn status_drawn(self, s: SheetView, status_area: Rect) -> SheetView {
        s.with(
            PaintView::Text {
                area: status_area,
                text: mode_text(self.mode) + " — "@ + self.status + " — "@ + hint_text(),
                look: inked(Ink::DarkGray),
            },
        )
    }

    /// One frame of the editor.
    pub open spec fn frame(
        self,
        area: Rect,
        status_area: Rect,
        screen: Rect,
        map: Option<MapLayout>,
        at: Landing,
    ) -> SheetView {
        let s1 = self.hover_drawn(blank_sheet(screen), area, at);
        let s2 = self.edges_drawn(s1, self.live(area), self.loose_id(), area, at);
        let s3 = self.nodes_drawn(s2, area, at, self.canvas.nodes.len() as int);
        let s4 = self.button_drawn(self.menu_drawn(s3, area), area);
        let s5 = self.ghosts_drawn(s4, area);
        let s6 = self.reattaching_drawn(self.connecting_drawn(s5, area, at), area, at);
        let s7 = match map {
            Some(m) => self.map_drawn(s6, m),
            None => s6,
        };
        self.status_drawn(s7, status_area)
    }
}

/// One cell of the screen as a box's place.
pub open spec fn cell_place(cell: (u16, u16)) -> ScreenRect {
    ScreenRect { x: cell.0 as i64, y: cell.1 as i64, width: 1, height: 1 }
}

/// Draws the row and column buttons of an open table, one row below its
/// box: the reliable way to what plenty of terminals never forward the keys
/// of.
fn draw_table_menu(sheet: &mut Sheet, id: &str, place: Rect, area: Rect)
    requires
        old(sheet).wf(),
    ensures
        final(sheet).wf(),
        final(sheet)@ == old(sheet)@.menu(id@, place, area, BUTTONS as int),
{
    let y: u16 = place.bottom();
    let mut k: u16 = 0;
    while k < BUTTONS
        invariant
            k <= BUTTONS,
            y == place.y_end(),
            sheet.wf(),
            sheet@ == old(sheet)@.menu(id@, place, area, k as int),
        decreases BUTTONS - k,
    {
        let x: u32 = place.x as u32 + 5 * k as u32;
        if x <= u16::MAX as u32 {
            let spot: Rect = Rect::new(x as u16, y, BUTTON_WIDTH, 1);
            let r: Rect = spot.intersection(&area);
            if !r.is_empty() {
                let (label, op) = match k {
                    0 => ("+col", TableOp::AddCol),
                    1 => ("-col", TableOp::DelCol),
                    2 => ("+row", TableOp::AddRow),
                    _ => ("-row", TableOp::DelRow),
                };
                sheet.put_hit(r, HitTarget::TableMenu(id.to_owned(), op));
                sheet.paint(
                    Paint::Text { area: r, text: label.to_owned(), look: Look::fg(Ink::DarkGray) },
                );
            }
        }
        k += 1;
    }
}

/// Draws the cells of a line.
fn draw_line(sheet: &mut Sheet, g: &Vec<(i64, i64, char)>, look: Look)
    requires
        old(sheet).wf(),
    ensures
        final(sheet).wf(),
        final(sheet)@ == old(sheet)@.line(glyphs(g@), look, g@.len() as int),
{
    let ghost all = glyphs(g@);
    let mut i: usize = 0;
    while i < g.len()
        invariant
            i <= g@.len(),
            all == glyphs(g@),
            sheet.wf(),
            sheet@ == old(sheet)@.line(all, look, i as int),
        decreases g@.len() - i,
    {
        let (x, y, ch) = g[i];
        proof {
            assert(all[i as int] == (x as int, y as int, ch));
        }
        sheet.put_char(x, y, ch, look);
        i += 1;
    }
}

/// Draws the outline of a box that is not there yet.
fn draw_ghost(sheet: &mut Sheet, area: Rect, color: Option<&Color>)
    requires
        old(sheet).wf(),
    ensures
        final(sheet).wf(),
        final(sheet)@ == old(sheet)@.ghost_box(
            area,
            match color {
                Some(c) => Some(c@),
                None => None,
            },
        ),
{
    let shown: Ink = match color {
        Some(c) => crate::paint::ink(c),
        None => Ink::DarkGray,
    };
    sheet.paint(Paint::Frame { area, rounded: false, look: Look::fg(shown) });
}

/// Draws dim dots on two sides of a box.
fn draw_dots<F: Fn(Fraction, u16) -> u16>(
    sheet: &mut Sheet,
    rect: ScreenRect,
    a: Side,
    b: Side,
    part: Option<Fraction>,
    at: &F,
)
    requires
        old(sheet).wf(),
        rect.near(),
        steady(*at),
    ensures
        final(sheet).wf(),
        final(sheet)@ == old(sheet)@.dots(rect, a, b, part, landing(*at)),
{
    match part {
        Some(part) => {
            let p: (i64, i64) = side_point(rect, a, part, at);
            sheet.put_char(p.0, p.1, '○', Look::fg(Ink::DarkGray));
            let q: (i64, i64) = side_point(rect, b, part, at);
            sheet.put_char(q.0, q.1, '○', Look::fg(Ink::DarkGray));
        },
        None => {},
    }
}

fn part_or_middle(part: Option<Fraction>) -> (r: Fraction)
    ensures
        r == part_or_half(part),
{
    match part {
        Some(p) => p,
        None => Fraction { num: 1, den: 2 },
    }
}

/// Draws a connector that is still being dragged, with the routing that a
/// landed one gets.
fn draw_drag_preview<F: Fn(Fraction, u16) -> u16>(
    sheet: &mut Sheet,
    from: ScreenRect,
    from_grid: &Option<Table>,
    from_anchor: Option<CellAnchor>,
    to: ScreenRect,
    to_grid: &Option<Table>,
    to_anchor: Option<CellAnchor>,
    at: &F,
)
    requires
        old(sheet).wf(),
        from.near(),
        to.near(),
        steady(*at),
    ensures
        final(sheet).wf(),
        final(sheet)@ == old(sheet)@.pulled(
            from,
            table_view(*from_grid),
            from_anchor,
            to,
            table_view(*to_grid),
            to_anchor,
            landing(*at),
        ),
{
    let (auto_fs, auto_ts) = sides_for(from, to);
    let fv: Option<bool> = forced_vertical(from_anchor);
    let tv: Option<bool> = forced_vertical(to_anchor);
    let fs: Side = match fv {
        Some(v) => side_toward(from, to, v),
        None => auto_fs,
    };
    let ts: Side = match tv {
        Some(v) => side_toward(to, from, v),
        None => auto_ts,
    };
    let from_part: Fraction = if fv.is_some() {
        part_or_middle(anchor_frac(from_grid, from_anchor, fs, from))
    } else {
        Fraction { num: 1, den: 2 }
    };
    let to_part: Fraction = if tv.is_some() {
        part_or_middle(anchor_frac(to_grid, to_anchor, ts, to))
    } else {
        Fraction { num: 1, den: 2 }
    };
    let sides: Option<(Side, Side)> = if fv.is_some() || tv.is_some() {
        Some((fs, ts))
    } else {
        None
    };
    let w: Vec<(i64, i64)> = route(from, to, from_part, to_part, sides, at);
    let ghost p = points(w@);
    let g: Vec<(i64, i64, char)> = cells_beside(route_glyphs(&w), from, to);
    draw_line(sheet, &g, Look::fg(Ink::DarkGray));
    let last: (i64, i64) = w[w.len() - 1];
    let prev: (i64, i64) = w[w.len() - 2];
    proof {
        assert(p.last() == (last.0 as int, last.1 as int));
        assert(p[p.len() - 2] == (prev.0 as int, prev.1 as int));
        assert(near(p.last()) && near(p[p.len() - 2]));
    }
    sheet.put_char(
        last.0,
        last.1,
        arrow_char(last.0 - prev.0, last.1 - prev.1),
        Look::fg(Ink::DarkGray),
    );
}

impl App {
    /// The box that a drag shows elsewhere.
    fn hidden_id(&self) -> (r: Option<String>)
        ensures
            opt_view(r) == self@.hidden(),
    {
        match moving(&self.drag) {
            Some(HitTarget::Move(id)) => Some(id),
            Some(HitTarget::Resize(id, _)) => Some(id),
            _ => None,
        }
    }

    /// Where the box that is being dragged is right now, so that a
    /// connector follows it instead of staying put until the drop.
    fn live_rect(&self, area: Rect) -> (r: Option<(String, ScreenRect)>)
        requires
            area.fits(),
        ensures
            live_view(r) == self@.live(area),
            live_near(r),
    {
        match self.resize_preview(area) {
            Some((id, r)) => {
                return Some((id, to_screen(r, self.camera, area)));
            },
            None => {},
        }
        match moving(&self.drag) {
            Some(HitTarget::Move(id)) => match ghost_in(&self.drag, area) {
                Some(g) => Some((id, screen_place(g))),
                None => None,
            },
            _ => None,
        }
    }

    /// The connector whose end is being pointed elsewhere.
    fn loose_end(&self) -> (r: Option<(String, Endpoint)>)
        ensures
            match r {
                Some((id, end)) => self@.loose() == Some((id@, end)),
                None => self@.loose() is None,
            },
    {
        match moving(&self.drag) {
            Some(HitTarget::Reattach(id, end)) => Some((id, end)),
            _ => None,
        }
    }

    /// Draws the places that a connector could be anchored at the hovered
    /// cell: just its column's and its row's, so that a big table does not
    /// ring itself in dots.
    fn draw_hover<F: Fn(Fraction, u16) -> u16>(&self, sheet: &mut Sheet, area: Rect, at: &F)
        requires
            old(sheet).wf(),
            steady(*at),
        ensures
            final(sheet).wf(),
            final(sheet)@ == self@.hover_drawn(old(sheet)@, area, landing(*at)),
    {
        let (id, a) = match &self.hover_cell {
            Some((id, a)) => (id, *a),
            None => {
                return;
            },
        };
        let n: &Node = match self.canvas.node(id.as_str()) {
            Some(n) => n,
            None => {
                return;
            },
        };
        let t: Table = match find_grid(&self.canvas, id.as_str()) {
            Some(t) => t,
            None => {
                return;
            },
        };
        let r: ScreenRect = to_screen(n.rect, self.camera, area);
        let cols: Option<Fraction> = match a.col {
            Some(c) => col_center_frac(&t, c, r.width),
            None => None,
        };
        draw_dots(sheet, r, Side::Top, Side::Bottom, cols, at);
        let rows: Option<Fraction> = match a.row {
            Some(w) => row_center_frac(&t, w, r.height),
            None => None,
        };
        draw_dots(sheet, r, Side::Left, Side::Right, rows, at);
    }

    /// The grid that a box is drawn as, if any, and the cell that is being
    /// typed into.
    fn find_shown_grid(&self, n: &Node) -> (r: Option<(Table, Option<(usize, usize)>)>)
        ensures
            match r {
                Some((t, cursor)) => self@.grid_shown(n@) == Some((cells(t@), cursor)),
                None => self@.grid_shown(n@) is None,
            },
    {
        match &self.mode {
            Mode::EditingCell(id, row, col) => {
                if same_str(id.as_str(), n.id.as_str()) {
                    let mut t: Table = clone_table(&self.editing_table);
                    patch(&mut t, *row, *col, encode_break(self.editing_text.as_str()));
                    return Some((t, Some((*row, *col))));
                }
            },
            _ => {},
        }
        let text: String = display_text(n);
        match parse(text.as_str()) {
            Some(t) => Some((t, None)),
            None => None,
        }
    }

    /// The text that a box shows.
    fn find_shown_text(&self, n: &Node) -> (r: String)
        ensures
            r@ == self@.text_shown(n@),
    {
        match &self.mode {
            Mode::Editing(Selected::Node(id)) => {
                if same_str(id.as_str(), n.id.as_str()) {
                    let mut s: String = self.editing_text.clone();
                    s.append("▏");
                    proof {
                        reveal_strlit("▏");
                        assert(s@ =~= self.editing_text@.push('▏'));
                    }
                    return s;
                }
            },
            _ => {},
        }
        display_text(n)
    }

    /// Draws a box's border and content.
    fn draw_box<F: Fn(Fraction, u16) -> u16>(
        &self,
        sheet: &mut Sheet,
        n: &Node,
        place: Rect,
        at: &F,
    )
        requires
            old(sheet).wf(),
            steady(*at),
        ensures
            final(sheet).wf(),
            final(sheet)@ == self@.box_drawn(old(sheet)@, n@, place, landing(*at)),
    {
        let target: Selected = Selected::Node(n.id.clone());
        let (base, border) = node_style(
            &n.color,
            is_selected(&self.selected, &target),
            self.preview_of(&target),
        );
        let rounded: bool = n.shape == Shape::Rounded;
        sheet.paint(Paint::Frame { area: place, rounded, look: border });
        match self.find_shown_grid(n) {
            Some((table, cursor)) => {
                let view = TableView { id: n.id.clone(), rect: place, table, cursor, look: base };
                view.draw(sheet, at);
            },
            None => {
                let text: String = self.find_shown_text(n);
                proof {
                    reveal_strlit("");
                    if text@.len() == 0 {
                        assert(text@ =~= ""@);
                    }
                }
                if !same_str(text.as_str(), "") {
                    sheet.paint(Paint::Wrapped { area: inner_rect(place), text, look: base });
                }
            },
        }
    }

    /// Draws one box.
    fn draw_node<F: Fn(Fraction, u16) -> u16>(
        &self,
        sheet: &mut Sheet,
        n: &Node,
        area: Rect,
        at: &F,
    )
        requires
            old(sheet).wf(),
            steady(*at),
        ensures
            final(sheet).wf(),
            final(sheet)@ == self@.node_drawn(old(sheet)@, n@, area, landing(*at)),
    {
        match self.hidden_id() {
            Some(id) => {
                if same_str(id.as_str(), n.id.as_str()) {
                    return;
                }
            },
            None => {},
        }
        let r: ScreenRect = to_screen(n.rect, self.camera, area);
        let place: Rect = match clip(r, area) {
            Some(place) => place,
            None => {
                return;
            },
        };
        sheet.put_hit(place, HitTarget::Move(n.id.clone()));
        if !fully_visible(r, area) {
            sheet.paint(Paint::Frame { area: place, rounded: false, look: Look::plain() });
            return;
        }
        let corners: Vec<(Corner, Rect)> = corner_rects(place);
        sheet.put_hit(corners[0].1, HitTarget::Resize(n.id.clone(), corners[0].0));
        sheet.put_hit(corners[1].1, HitTarget::Resize(n.id.clone(), corners[1].0));
        sheet.put_hit(corners[2].1, HitTarget::Resize(n.id.clone(), corners[2].0));
        sheet.put_hit(corners[3].1, HitTarget::Resize(n.id.clone(), corners[3].0));
        self.draw_box(sheet, n, place, at);
    }

    /// Draws every box.
    fn draw_nodes<F: Fn(Fraction, u16) -> u16>(&self, sheet: &mut Sheet, area: Rect, at: &F)
        requires
            old(sheet).wf(),
            steady(*at),
        ensures
            final(sheet).wf(),
            final(sheet)@ == self@.nodes_drawn(
                old(sheet)@,
                area,
                landing(*at),
                self@.canvas.nodes.len() as int,
            ),
    {
        let mut i: usize = 0;
        while i < self.canvas.nodes.len()
            invariant
                i <= self.canvas.nodes@.len(),
                steady(*at),
                sheet.wf(),
                sheet@ == self@.nodes_drawn(old(sheet)@, area, landing(*at), i as int),
            decreases self.canvas.nodes@.len() - i,
        {
            proof {
                assert(self@.canvas.nodes[i as int] == self.canvas.nodes@[i as int]@);
            }
            self.draw_node(sheet, &self.canvas.nodes[i], area, at);
            i += 1;
        }
    }

    /// Draws the row and column buttons of the table that is open.
    fn draw_menu(&self, sheet: &mut Sheet, area: Rect)
        requires
            old(sheet).wf(),
        ensures
            final(sheet).wf(),
            final(sheet)@ == self@.menu_drawn(old(sheet)@, area),
    {
        match &self.mode {
            Mode::EditingCell(id, _, _) => match self.canvas.node(id.as_str()) {
                Some(n) => match clip(to_screen(n.rect, self.camera, area), area) {
                    Some(place) => draw_table_menu(sheet, id.as_str(), place, area),
                    None => {},
                },
                None => {},
            },
            _ => {},
        }
    }

    /// Draws the selected box's color button, filled with the box's own
    /// color, and its picker while that is open.
    fn draw_color_button(&self, sheet: &mut Sheet, area: Rect)
        requires
            old(sheet).wf(),
        ensures
            final(sheet).wf(),
            final(sheet)@ == self@.button_drawn(old(sheet)@, area),
    {
        let id: &String = match &self.selected {
            Some(Selected::Node(id)) => id,
            _ => {
                return;
            },
        };
        let n: &Node = match self.canvas.node(id.as_str()) {
            Some(n) => n,
            None => {
                return;
            },
        };
        let target: Selected = Selected::Node(id.clone());
        let r: ScreenRect = to_screen(n.rect, self.camera, area);
        let right: i64 = r.right();
        if right < 0 || r.y < 0 {
            return;
        }
        let x: u16 = wrap(right);
        let y: u16 = wrap(r.y);
        let spot: Rect = Rect::new(x, y, 1, 1);
        if spot.intersection(&area).is_empty() {
            return;
        }
        draw_button(sheet, &target, x, y, ink_opt(&n.color), area);
        if is_selected(&self.color_picker, &target) {
            draw_color_picker(sheet, &target, x, y + 1, area);
        }
    }

    /// Draws the outline of the box that is being dragged, and of the one
    /// that is being dragged out on empty canvas.
    fn draw_ghosts(&self, sheet: &mut Sheet, live: &Option<(String, ScreenRect)>, area: Rect)
        requires
            old(sheet).wf(),
            self@.wf(),
            live_near(*live),
            live_view(*live) == self@.live(area),
        ensures
            final(sheet).wf(),
            final(sheet)@ == self@.ghosts_drawn(old(sheet)@, area),
    {
        match live {
            Some((id, r)) => match clip(*r, area) {
                Some(place) => {
                    let color: Option<&Color> = match self.canvas.node(id.as_str()) {
                        Some(n) => match &n.color {
                            Some(c) => Some(c),
                            None => None,
                        },
                        None => None,
                    };
                    draw_ghost(sheet, place, color);
                },
                None => {},
            },
            None => {},
        }
        match self.drawing_preview() {
            Some(r) => draw_ghost(sheet, r, None),
            None => {},
        }
    }

    /// The box that a dragged connector is aimed at, and the anchor that a
    /// drop there would carry.
    fn find_aim(sheet: &Sheet, from: &str, x: u16, y: u16) -> (r: Option<
        (String, Option<CellAnchor>),
    >)
        requires
            sheet.wf(),
        ensures
            match r {
                Some((id, a)) => AppView::aim(sheet@, from@, x, y) == Some((id@, a)),
                None => AppView::aim(sheet@, from@, x, y) is None,
            },
    {
        let (target, _) = match sheet.hits.at(x, y) {
            Some(hit) => hit,
            None => {
                return None;
            },
        };
        let (id, anchor): (String, Option<CellAnchor>) = match target {
            HitTarget::TableCell(id, row, col) => (id, Some(cell_anchor_for(row, col))),
            HitTarget::AnchorDot(id, a) => (id, Some(a)),
            other => match other.node_id() {
                Some(id) => (id.clone(), None),
                None => {
                    return None;
                },
            },
        };
        if same_str(id.as_str(), from) {
            None
        } else {
            Some((id, anchor))
        }
    }

    /// Draws a connector that is being dragged from a box to the cursor.
    fn draw_pull<F: Fn(Fraction, u16) -> u16>(
        &self,
        sheet: &mut Sheet,
        from: &Node,
        anchor: Option<CellAnchor>,
        cell: (u16, u16),
        aim: Option<(String, Option<CellAnchor>)>,
        area: Rect,
        at: &F,
    )
        requires
            old(sheet).wf(),
            steady(*at),
        ensures
            final(sheet).wf(),
            final(sheet)@ == self@.pull_drawn(
                old(sheet)@,
                from@,
                anchor,
                cell,
                match aim {
                    Some((id, a)) => Some((id@, a)),
                    None => None,
                },
                area,
                landing(*at),
            ),
    {
        let mut to = ScreenRect { x: cell.0 as i64, y: cell.1 as i64, width: 1, height: 1 };
        let mut to_grid: Option<Table> = None;
        let mut to_anchor: Option<CellAnchor> = None;
        match aim {
            Some((id, a)) => match self.canvas.node(id.as_str()) {
                Some(n) => {
                    let text: String = display_text(n);
                    to = to_screen(n.rect, self.camera, area);
                    to_grid = parse(text.as_str());
                    to_anchor = a;
                },
                None => {},
            },
            None => {},
        }
        let text: String = display_text(from);
        let from_grid: Option<Table> = parse(text.as_str());
        let place: ScreenRect = to_screen(from.rect, self.camera, area);
        draw_drag_preview(sheet, place, &from_grid, anchor, to, &to_grid, to_anchor, at);
    }

    /// Draws the connector that is being drawn.
    fn draw_connecting<F: Fn(Fraction, u16) -> u16>(
        &self,
        sheet: &mut Sheet,
        area: Rect,
        at: &F,
    )
        requires
            old(sheet).wf(),
            steady(*at),
        ensures
            final(sheet).wf(),
            final(sheet)@ == self@.connecting_drawn(old(sheet)@, area, landing(*at)),
    {
        let (from, anchor) = match moving(&self.drag) {
            Some(HitTarget::Connect(from, anchor)) => (from, anchor),
            _ => {
                return;
            },
        };
        let (x, y) = match cursor(&self.drag) {
            Some(cell) => cell,
            None => {
                return;
            },
        };
        match self.canvas.node(from.as_str()) {
            Some(n) => {
                let aim: Option<(String, Option<CellAnchor>)> = App::find_aim(
                    sheet,
                    from.as_str(),
                    x,
                    y,
                );
                self.draw_pull(sheet, n, anchor, (x, y), aim, area, at);
            },
            None => {},
        }
    }

    /// Draws the connector whose end is being pointed elsewhere.
    fn draw_reattaching<F: Fn(Fraction, u16) -> u16>(
        &self,
        sheet: &mut Sheet,
        area: Rect,
        at: &F,
    )
        requires
            old(sheet).wf(),
            steady(*at),
        ensures
            final(sheet).wf(),
            final(sheet)@ == self@.reattaching_drawn(old(sheet)@, area, landing(*at)),
    {
        let (id, end) = match self.loose_end() {
            Some(loose) => loose,
            None => {
                return;
            },
        };
        let cell: (u16, u16) = match cursor(&self.drag) {
            Some(cell) => cell,
            None => {
                return;
            },
        };
        let e: &Edge = match self.canvas.edge(id.as_str()) {
            Some(e) => e,
            None => {
                return;
            },
        };
        let stays: &String = match end {
            Endpoint::From => &e.to,
            Endpoint::To => &e.from,
        };
        match self.canvas.node(stays.as_str()) {
            Some(n) => self.draw_pull(sheet, n, None, cell, None, area, at),
            None => {},
        }
    }

    /// Draws the status line.
    fn draw_status(&self, sheet: &mut Sheet, status_area: Rect)
        requires
            old(sheet).wf(),
        ensures
            final(sheet).wf(),
            final(sheet)@ == self@.status_drawn(old(sheet)@, status_area),
    {
        let mut line: String = match &self.mode {
            Mode::Normal => "NORMAL".to_owned(),
            Mode::Editing(_) => "EDIT (Esc to leave)".to_owned(),
            Mode::EditingCell(..) =>
                "TABLE (tab/enter/arrows move · alt+enter line break · ctrl+z undo · +col/-col/+row/-row buttons below · esc done)".to_owned(),
        };
        line.append(" — ");
        line.append(self.status.as_str());
        line.append(" — ");
        line.append(
            "drag empty space to place · click to select · ● button color picker (box or connector) · dbl-click to edit · t table · drag move · shift+drag connect · corner resize · arrows/wheel pan · m map · o open file/link · y copy · esc then c color / x shape (or ends, on a connector) / d delete · ctrl+z undo · ctrl+y redo · s save · q/esc quit",
        );
        sheet.paint(
            Paint::Text { area: status_area, text: line, look: Look::fg(Ink::DarkGray) },
        );
    }

    /// One frame of the editor: what to draw on the screen, in order. What
    /// the pointer can hit in it takes the place of what it could before.
    /// `at` says how many cells into a span a part of it lands.
    pub fn render<F: Fn(Fraction, u16) -> u16>(
        &mut self,
        canvas_area: Rect,
        status_area: Rect,
        screen: Rect,
        at: &F,
    ) -> (r: Vec<Paint>)
        requires
            old(self).wf(),
            canvas_area.fits(),
            old(self).canvas.edges@.len() < usize::MAX,
            steady(*at),
        ensures
            ({
                let s = old(self)@.frame(canvas_area, status_area, screen, None, landing(*at));
                &&& paint_views(r@) == s.out
                &&& final(self)@ == (AppView {
                    area: canvas_area,
                    hits: s.hits,
                    edge_hits: s.edge_hits,
                    ..old(self)@
                })
            }),
            final(self).wf(),
    {
        self.render_with_map(canvas_area, status_area, screen, &None, at)
    }

    /// The same with the map over the board, where there is one. It is drawn
    /// over everything but the status line, and hit before all that it
    /// covers.
    pub fn render_with_map<F: Fn(Fraction, u16) -> u16>(
        &mut self,
        canvas_area: Rect,
        status_area: Rect,
        screen: Rect,
        map: &Option<MapLayout>,
        at: &F,
    ) -> (r: Vec<Paint>)
        requires
            old(self).wf(),
            canvas_area.fits(),
            old(self).canvas.edges@.len() < usize::MAX,
            *map matches Some(m) ==> m.ordered() && m.dots@.len() == old(self).canvas.nodes@.len(),
            steady(*at),
        ensures
            ({
                let s = old(self)@.frame(canvas_area, status_area, screen, *map, landing(*at));
                &&& paint_views(r@) == s.out
                &&& final(self)@ == (AppView {
                    area: canvas_area,
                    hits: s.hits,
                    edge_hits: s.edge_hits,
                    ..old(self)@
                })
            }),
            final(self).wf(),
    {
        let mut sheet: Sheet = Sheet::new(screen);
        let live: Option<(String, ScreenRect)> = self.live_rect(canvas_area);
        let loose: Option<String> = match self.loose_end() {
            Some((id, _)) => Some(id),
            None => None,
        };
        self.draw_hover(&mut sheet, canvas_area, at);
        self.draw_edges(&mut sheet, &live, &loose, canvas_area, at);
        self.draw_nodes(&mut sheet, canvas_area, at);
        self.draw_menu(&mut sheet, canvas_area);
        self.draw_color_button(&mut sheet, canvas_area);
        self.draw_ghosts(&mut sheet, &live, canvas_area);
        self.draw_connecting(&mut sheet, canvas_area, at);
        self.draw_reattaching(&mut sheet, canvas_area, at);
        match map {
            Some(m) => self.draw_minimap(&mut sheet, m),
            None => {},
        }
        self.draw_status(&mut sheet, status_area);
        let Sheet { screen: _, out, hits, edge_hits } = sheet;
        self.canvas_area = canvas_area;
        self.hits = hits;
        self.edge_hits = edge_hits;
        out
    }
}

} // verus!

//! What the mouse does to a board.

use vstd::prelude::*;

use crate::app::{
    App, AppView, Mode, ModeView, Request, RequestView, Response, DOUBLE_CLICK, MIN_H, MIN_W,
};
use crate::geometry::{clamp_i32, max, min, to_i32, to_u16, Rect};
use crate::input_laws::{lemma_acted, lemma_mouse_keeps, lemma_prepared};
use crate::model::{
    color_of, Canvas, CanvasView, CellAnchor, Color, EdgeView, NodeView, ShapeId, WorldRect,
};
use crate::pointer::{
    cursor, drag_cell, drag_key, drag_step, feed_drag, hit_view, last_at, moving, Did, DidView,
    MouseInput, MouseKind,
};
use crate::render::{cell_anchor, cell_anchor_for};
use crate::target::{
    is_selected, Corner, Endpoint, HitTarget, HitView, Selected, SelectedView, TableOp,
};
use crate::text::{opt_view, same_str};

verus! {

/// The board's cell under a cell of the screen.
pub open spec fn world_at(x: int, y: int, area: Rect, camera: (i32, i32)) -> (i32, i32) {
    (to_i32(x - area.x + camera.0), to_i32(y - area.y + camera.1))
}

/// `n` moved into `lo..=hi`.
pub open spec fn clamped(n: int, lo: int, hi: int) -> int {
    if n < lo {
        lo
    } else if n > hi {
        hi
    } else {
        n
    }
}

/// The rectangle between two cells, at least as large as a box can be made
/// by hand.
pub open spec fn drawn_rect(start: (u16, u16), end: (u16, u16)) -> Rect {
    let x = min(start.0 as int, end.0 as int);
    let y = min(start.1 as int, end.1 as int);
    let w = max(max(start.0 as int, end.0 as int) - x + 1, MIN_W as int);
    let h = max(max(start.1 as int, end.1 as int) - y + 1, MIN_H as int);
    Rect { x: x as u16, y: y as u16, width: w as u16, height: h as u16 }
}

/// A box with one corner dragged to a cell of the screen, kept on the
/// canvas, and never smaller than a box can be made by hand.
pub open spec fn resized(
    origin: WorldRect,
    corner: Corner,
    cx: u16,
    cy: u16,
    area: Rect,
    camera: (i32, i32),
) -> WorldRect {
    let wx = clamped(cx as int, area.x as int, area.x_end() - 1) - area.x + camera.0;
    let wy = clamped(cy as int, area.y as int, area.y_end() - 1) - area.y + camera.1;
    let left = origin.x as int;
    let top = origin.y as int;
    let right = left + origin.width;
    let bottom = top + origin.height;
    let (l, r) = match corner {
        Corner::TopLeft | Corner::BottomLeft => (min(wx, right - MIN_W), right),
        Corner::TopRight | Corner::BottomRight => (left, max(wx, left + MIN_W)),
    };
    let (t, b) = match corner {
        Corner::TopLeft | Corner::TopRight => (min(wy, bottom - MIN_H), bottom),
        Corner::BottomLeft | Corner::BottomRight => (top, max(wy, top + MIN_H)),
    };
    WorldRect { x: to_i32(l), y: to_i32(t), width: to_u16(r - l), height: to_u16(b - t) }
}

/// Cells from a point to the nearest edge of a box, 0 if inside it.
pub open spec fn distance(r: WorldRect, x: int, y: int) -> int {
    let dx = if x < r.x {
        r.x - x
    } else {
        max(x - (r.x + max(r.width - 1, 0)), 0)
    };
    let dy = if y < r.y {
        r.y - y
    } else {
        max(y - (r.y + max(r.height - 1, 0)), 0)
    };
    dx + dy
}

/// The first of the boxes closest to a point.
pub open spec fn nearest(nodes: Seq<NodeView>, x: int, y: int) -> Option<NodeView>
    decreases nodes.len(),
{
    if nodes.len() == 0 {
        None
    } else {
        match nearest(nodes.drop_last(), x, y) {
            Some(best) => if distance(nodes.last().rect, x, y) < distance(best.rect, x, y) {
                Some(nodes.last())
            } else {
                Some(best)
            },
            None => Some(nodes.last()),
        }
    }
}

/// What a press on a hit is about: with shift held, a grab on a box draws a
/// connector instead of moving it. A grab on the dot of a table's row or
/// column draws one from there.
pub open spec fn taken_hit(hit: Option<(HitView, Rect)>, ev: MouseInput) -> Option<
    (HitView, Rect),
> {
    match hit {
        Some((HitView::Move(id), r)) => if ev.kind == MouseKind::Down && ev.shift {
            Some((HitView::Connect(id, None), r))
        } else {
            hit
        },
        Some((HitView::AnchorDot(id, a), r)) => if ev.kind == MouseKind::Down {
            Some((HitView::Connect(id, Some(a)), r))
        } else {
            hit
        },
        _ => hit,
    }
}

/// The row or column of a box that a hit is at: that of a table's cell or
/// dot.
pub open spec fn anchor_at(hit: Option<(HitView, Rect)>, id: Seq<char>) -> Option<CellAnchor> {
    match hit {
        Some((HitView::TableCell(at, row, col), _)) => if at == id {
            Some(cell_anchor(row, col))
        } else {
            None
        },
        Some((HitView::AnchorDot(at, a), _)) => if at == id {
            Some(a)
        } else {
            None
        },
        _ => None,
    }
}

impl AppView {
    /// What lies on top at a cell.
    pub open spec fn hit_at(self, x: u16, y: u16) -> Option<(HitView, Rect)> {
        match last_at(self.hits, x, y) {
            Some((r, t)) => Some((t, r)),
            None => None,
        }
    }

    /// The state with the swatch and the table cell under the pointer noted.
    pub open spec fn hovered(self, ev: MouseInput) -> AppView {
        if ev.kind == MouseKind::Moved {
            AppView {
                hover_swatch: match self.hit_at(ev.column, ev.row) {
                    Some((HitView::ColorSwatch(t, c), _)) => Some(
                        (
                            t,
                            match c {
                                Some(c) => Some(color_of(c)),
                                None => None,
                            },
                        ),
                    ),
                    _ => None,
                },
                hover_cell: match self.hit_at(ev.column, ev.row) {
                    Some((HitView::TableCell(id, row, col), _)) => Some(
                        (id, cell_anchor(row, col)),
                    ),
                    Some((HitView::AnchorDot(id, a), _)) => Some((id, a)),
                    _ => None,
                },
                ..self
            }
        } else {
            self
        }
    }

    /// Whether a press acts on the table that is being edited, so that the
    /// edit goes on.
    pub open spec fn stays_in_table(self, hit: Option<(HitView, Rect)>) -> bool {
        match (hit, self.mode) {
            (Some((HitView::TableMenu(id, _), _)), ModeView::EditingCell(open, _, _)) => id == open,
            (Some((HitView::TableCell(id, _, _), _)), ModeView::EditingCell(open, _, _)) => id
                == open,
            _ => false,
        }
    }

    /// The state with a press begun: what is being edited is written back,
    /// and a press on nothing begins on a connector or draws a box.
    pub open spec fn pressed(self, ev: MouseInput, area: Rect) -> AppView {
        let hit = self.hit_at(ev.column, ev.row);
        let s = if self.stays_in_table(hit) {
            self
        } else {
            self.committed()
        };
        match taken_hit(hit, ev) {
            Some((HitView::Move(_), r)) => AppView {
                grab: (to_u16(ev.column - r.x), to_u16(ev.row - r.y)),
                drawing: None,
                press: None,
                ..s
            },
            Some(_) => AppView { drawing: None, press: None, ..s },
            None => match last_at(s.edge_hits, ev.column, ev.row) {
                Some((_, id)) => AppView {
                    press: Some((id, ev.column, ev.row)),
                    drawing: None,
                    ..s
                },
                None => AppView {
                    press: None,
                    drawing: if area.has(ev.column, ev.row) {
                        Some(((ev.column, ev.row), (ev.column, ev.row)))
                    } else {
                        None
                    },
                    ..s
                },
            },
        }
    }

    /// The state with the box being drawn stretched to the pointer.
    pub open spec fn stretched(self, ev: MouseInput, area: Rect) -> AppView {
        match self.drawing {
            Some((start, _)) => AppView {
                drawing: Some(
                    (
                        start,
                        (
                            clamped(ev.column as int, area.x as int, area.x_end() - 1) as u16,
                            clamped(ev.row as int, area.y as int, area.y_end() - 1) as u16,
                        ),
                    ),
                ),
                ..self
            },
            None => self,
        }
    }

    /// The state before the drag takes the event.
    pub open spec fn prepared(self, ev: MouseInput, area: Rect) -> AppView {
        match ev.kind {
            MouseKind::Moved => self.hovered(ev),
            MouseKind::Down => self.pressed(ev, area),
            MouseKind::Drag => self.stretched(ev, area),
            _ => self,
        }
    }

    /// The state with a click noted, and whether it was the second on the
    /// same thing soon after the first.
    pub open spec fn click_noted(self, target: SelectedView, now: u64) -> (AppView, bool) {
        (
            AppView { last_click: Some((target, now)), ..self },
            match self.last_click {
                Some((before, at)) => before == target && now - at < DOUBLE_CLICK,
                None => false,
            },
        )
    }

    /// The state with something selected by a click, and opened by a
    /// double click.
    pub open spec fn clicked(self, target: SelectedView, now: u64) -> AppView {
        let (s, twice) = self.dispatched(RequestView::Select { id: Some(target) }).0.click_noted(
            target,
            now,
        );
        if twice {
            s.begun(target)
        } else {
            s
        }
    }

    /// The state with the color picker closed.
    pub open spec fn unpicked(self) -> AppView {
        AppView { color_picker: None, hover_swatch: None, ..self }
    }

    /// A click on a cell of a table: goes there if the table is open,
    /// selects the box if not, and opens it there on a double click.
    pub open spec fn clicked_cell(self, id: Seq<char>, row: usize, col: usize, now: u64) -> AppView {
        match self.mode {
            ModeView::EditingCell(open, r, c) if open == id => self.synced(
                r as int,
                c as int,
            ).gone_to(id, row, col),
            _ => {
                let target = SelectedView::Node(id);
                let (s, twice) = self.dispatched(
                    RequestView::Select { id: Some(target) },
                ).0.click_noted(target, now);
                if twice {
                    s.begun_table(id, row, col)
                } else {
                    s
                }
            },
        }
    }

    /// Whether a row or column can be added or removed at a cell: it lies in
    /// the grid.
    pub open spec fn has_place(self, op: TableOp, row: usize, col: usize) -> bool {
        match op {
            TableOp::AddCol => self.in_grid(row, col),
            TableOp::DelCol => self.in_grid(row, col),
            TableOp::AddRow => row < self.table.len(),
            TableOp::DelRow => row < self.table.len(),
        }
    }

    /// A click on a row or column button of the table that is open. It does
    /// nothing where the open cell is not in the grid.
    pub open spec fn clicked_op(self, id: Seq<char>, op: TableOp) -> AppView {
        match self.mode {
            ModeView::EditingCell(open, row, col) if open == id && self.has_place(
                op,
                row,
                col,
            ) => match op {
                TableOp::AddCol => self.col_inserted(id, row, col),
                TableOp::DelCol => self.col_deleted(id, row, col),
                TableOp::AddRow => self.row_inserted(id, row, col),
                TableOp::DelRow => self.row_deleted(id, row, col),
            },
            _ => self,
        }
    }

    /// What a click does.
    pub open spec fn acted_click(self, hit: HitView, now: u64) -> AppView {
        match hit {
            HitView::Reattach(id, _) => self.unpicked().clicked(SelectedView::Edge(id), now),
            HitView::ColorMenu(target) => AppView {
                color_picker: if self.color_picker == Some(target) {
                    None
                } else {
                    Some(target)
                },
                hover_swatch: None,
                ..self
            },
            HitView::ColorSwatch(target, color) => match target {
                SelectedView::Node(id) => self.dispatched(
                    RequestView::SetColor { id, color },
                ).0.unpicked(),
                SelectedView::Edge(id) => self.dispatched(
                    RequestView::SetEdgeColor { id, color },
                ).0.unpicked(),
            },
            HitView::TableCell(id, row, col) => self.unpicked().clicked_cell(id, row, col, now),
            HitView::TableMenu(id, op) => self.clicked_op(id, op),
            HitView::Move(id) => self.unpicked().clicked(SelectedView::Node(id), now),
            HitView::Resize(id, _) => self.unpicked().clicked(SelectedView::Node(id), now),
            HitView::Connect(id, _) => self.unpicked().clicked(SelectedView::Node(id), now),
            HitView::AnchorDot(id, _) => self.unpicked().clicked(SelectedView::Node(id), now),
            HitView::Minimap => self,
        }
    }

    /// A box dropped by the point it was grabbed at, kept on the canvas.
    pub open spec fn dropped_box(self, id: Seq<char>, x: u16, y: u16, area: Rect) -> AppView {
        match self.canvas.node(id) {
            Some(node) => {
                let (w, h) = (node.rect.width, node.rect.height);
                let max_x = max(max(area.x_end() - w, 0), area.x as int);
                let max_y = max(max(area.y_end() - h, 0), area.y as int);
                let nx = clamped(max(x - self.grab.0, 0), area.x as int, max_x);
                let ny = clamped(max(y - self.grab.1, 0), area.y as int, max_y);
                let (wx, wy) = world_at(nx, ny, area, self.camera);
                self.dispatched(RequestView::SetRect { id, x: wx, y: wy, w, h }).0
            },
            None => self,
        }
    }

    /// A corner dropped: the box takes its new size.
    pub open spec fn dropped_corner(
        self,
        id: Seq<char>,
        corner: Corner,
        x: u16,
        y: u16,
        area: Rect,
    ) -> AppView {
        let s = AppView { resize: None, ..self };
        match self.resize {
            Some((origin_id, origin_corner, origin)) => if origin_id == id && origin_corner
                == corner {
                let r = resized(origin, corner, x, y, area, self.camera);
                s.dispatched(
                    RequestView::SetRect { id, x: r.x, y: r.y, w: r.width, h: r.height },
                ).0
            } else {
                s
            },
            None => s,
        }
    }

    /// The box that a drop at a cell means: the one there, or the nearest.
    pub open spec fn drop_target(self, x: u16, y: u16, area: Rect) -> Option<Seq<char>> {
        let there = match self.hit_at(x, y) {
            Some((t, _)) => t.node(),
            None => None,
        };
        match there {
            Some(id) => Some(id),
            None => match nearest(
                self.canvas.nodes,
                x - area.x + self.camera.0,
                y - area.y + self.camera.1,
            ) {
                Some(node) => Some(node.id),
                None => None,
            },
        }
    }

    /// The state with the newest connector lined up with table rows or
    /// columns.
    pub open spec fn with_anchors(
        self,
        from: Option<CellAnchor>,
        to: Option<CellAnchor>,
    ) -> AppView {
        let edges = self.canvas.edges;
        let edge = EdgeView { from_anchor: from, to_anchor: to, ..edges.last() };
        AppView {
            canvas: CanvasView { edges: edges.update(edges.len() - 1, edge), ..self.canvas },
            ..self
        }
    }

    /// A connector drawn from a box and dropped. Its ends line up with the
    /// row or column that it was drawn from, and with what it was dropped
    /// on.
    pub open spec fn dropped_connector(
        self,
        from: Seq<char>,
        anchor: Option<CellAnchor>,
        x: u16,
        y: u16,
        area: Rect,
    ) -> AppView {
        match self.drop_target(x, y, area) {
            Some(to) => if to == from {
                AppView { status: "can't connect a box to itself"@, ..self }
            } else {
                let (s, reply) = self.dispatched(RequestView::Connect { from, to });
                let t = if reply is Ok {
                    s.with_anchors(anchor, anchor_at(self.hit_at(x, y), to))
                } else {
                    s
                };
                AppView { status: Seq::empty(), ..t }
            },
            None => AppView { status: "nothing to connect to"@, ..self },
        }
    }

    /// An end of a connector dropped.
    pub open spec fn dropped_end(
        self,
        id: Seq<char>,
        end: Endpoint,
        x: u16,
        y: u16,
        area: Rect,
    ) -> AppView {
        match self.drop_target(x, y, area) {
            Some(node) => {
                let name = match end {
                    Endpoint::From => "from"@,
                    Endpoint::To => "to"@,
                };
                let (s, reply) = self.dispatched(RequestView::Reattach { id, end: name, node });
                AppView {
                    status: match reply {
                        Ok(_) => Seq::empty(),
                        Err(msg) => msg,
                    },
                    ..s
                }
            },
            None => AppView { status: "nothing to attach to"@, ..self },
        }
    }

    /// What a drag that lifts, moves or drops something does.
    pub open spec fn acted(self, did: DidView<HitView>, area: Rect, now: u64) -> AppView {
        match did {
            DidView::Click(hit) => self.acted_click(hit, now),
            DidView::Lift(HitView::Resize(id, corner)) => match self.canvas.node(id) {
                Some(node) => AppView { resize: Some((id, corner, node.rect)), ..self },
                None => self,
            },
            DidView::Drop { key: HitView::Move(id), x, y } => self.dropped_box(id, x, y, area),
            DidView::Drop { key: HitView::Resize(id, corner), x, y } => self.dropped_corner(
                id,
                corner,
                x,
                y,
                area,
            ),
            DidView::Drop { key: HitView::Connect(from, anchor), x, y } => self.dropped_connector(
                from,
                anchor,
                x,
                y,
                area,
            ),
            DidView::Drop { key: HitView::Reattach(id, end), x, y } => self.dropped_end(
                id,
                end,
                x,
                y,
                area,
            ),
            _ => self,
        }
    }

    /// A box drawn on empty canvas, placed and opened to type into.
    pub open spec fn placed_drawn(
        self,
        start: (u16, u16),
        end: (u16, u16),
        area: Rect,
    ) -> AppView {
        let r = drawn_rect(start, end);
        let (wx, wy) = world_at(r.x as int, r.y as int, area, self.camera);
        let target = SelectedView::Node(self.canvas.next());
        let s = self.dispatched(
            RequestView::Place { x: wx, y: wy, w: Some(r.width), h: Some(r.height) },
        ).0;
        (AppView { selected: Some(target), ..s }).begun(target)
    }

    /// The state after a release: a press on a connector that did not move
    /// clicks it, a drawn rectangle becomes a box, and a plain click on
    /// empty canvas clears the selection.
    pub open spec fn released(self, ev: MouseInput, area: Rect, now: u64) -> AppView {
        let s = AppView { press: None, ..self };
        match self.press {
            Some((id, px, py)) if px == ev.column && py == ev.row => s.clicked(
                SelectedView::Edge(id),
                now,
            ),
            _ => {
                let d = AppView { drawing: None, ..s };
                match self.drawing {
                    Some((start, end)) => if start != end {
                        d.placed_drawn(start, end, area)
                    } else if self.selected is Some {
                        d.dispatched(RequestView::Select { id: None }).0.unpicked()
                    } else {
                        d
                    },
                    None => d,
                }
            },
        }
    }

    /// The state after a mouse event.
    pub open spec fn moused(self, ev: MouseInput, area: Rect, now: u64) -> AppView {
        let hit = taken_hit(self.hit_at(ev.column, ev.row), ev);
        let s = self.prepared(ev, area);
        let (drag, did) = drag_step(s.drag, ev, hit);
        let t = (AppView { drag, ..s }).acted(did, area, now);
        if ev.kind == MouseKind::Up {
            t.released(ev, area, now)
        } else {
            t
        }
    }

    /// Where a resize in progress would land.
    pub open spec fn resizing(self, bounds: Rect) -> Option<(Seq<char>, WorldRect)> {
        match (drag_key(self.drag), self.resize, drag_cell(self.drag)) {
            (
                Some(HitView::Resize(id, corner)),
                Some((origin_id, origin_corner, origin)),
                Some((cx, cy)),
            ) => if origin_id == id && origin_corner == corner {
                Some((id, resized(origin, corner, cx, cy, bounds, self.camera)))
            } else {
                None
            },
            _ => None,
        }
    }

    /// Whether an area has cells.
    pub open spec fn has_cells(area: Rect) -> bool {
        area.x < area.x_end() && area.y < area.y_end()
    }

    /// Whether a mouse event can be taken: a rectangle or a corner that is
    /// dragged has canvas to be kept on, and the counter can give two more
    /// ids.
    pub open spec fn mouse_fits(self, ev: MouseInput, area: Rect) -> bool {
        &&& self.canvas.next_id + 1 < u64::MAX
        &&& ev.kind == MouseKind::Drag && self.drawing is Some ==> Self::has_cells(area)
        &&& ev.kind == MouseKind::Up && self.resize is Some ==> match drag_key(self.drag) {
            Some(HitView::Resize(_, _)) => Self::has_cells(area),
            _ => true,
        }
    }
}

fn larger_i64(a: i64, b: i64) -> (r: i64)
    ensures
        r == max(a as int, b as int),
{
    if a < b {
        b
    } else {
        a
    }
}

fn smaller_i64(a: i64, b: i64) -> (r: i64)
    ensures
        r == min(a as int, b as int),
{
    if a < b {
        a
    } else {
        b
    }
}

fn clamp_to(n: i64, lo: i64, hi: i64) -> (r: i64)
    ensures
        r == clamped(n as int, lo as int, hi as int),
{
    if n < lo {
        lo
    } else if n > hi {
        hi
    } else {
        n
    }
}

fn cut_u16(v: i64) -> (r: u16)
    ensures
        r == to_u16(v as int),
{
    if v < 0 {
        0
    } else if v > u16::MAX as i64 {
        u16::MAX
    } else {
        v as u16
    }
}

/// A box with one corner dragged to a cell of the screen.
fn resized_rect(
    origin: WorldRect,
    corner: Corner,
    cx: u16,
    cy: u16,
    bounds: Rect,
    camera: (i32, i32),
) -> (r: WorldRect)
    ensures
        r == resized(origin, corner, cx, cy, bounds, camera),
{
    let kept_x: i64 = clamp_to(cx as i64, bounds.x as i64, bounds.right() as i64 - 1);
    let kept_y: i64 = clamp_to(cy as i64, bounds.y as i64, bounds.bottom() as i64 - 1);
    let wx: i64 = kept_x - bounds.x as i64 + camera.0 as i64;
    let wy: i64 = kept_y - bounds.y as i64 + camera.1 as i64;
    let left: i64 = origin.x as i64;
    let top: i64 = origin.y as i64;
    let right: i64 = left + origin.width as i64;
    let bottom: i64 = top + origin.height as i64;
    let (l, rr) = match corner {
        Corner::TopLeft => (smaller_i64(wx, right - MIN_W as i64), right),
        Corner::BottomLeft => (smaller_i64(wx, right - MIN_W as i64), right),
        Corner::TopRight => (left, larger_i64(wx, left + MIN_W as i64)),
        Corner::BottomRight => (left, larger_i64(wx, left + MIN_W as i64)),
    };
    let (t, b) = match corner {
        Corner::TopLeft => (smaller_i64(wy, bottom - MIN_H as i64), bottom),
        Corner::TopRight => (smaller_i64(wy, bottom - MIN_H as i64), bottom),
        Corner::BottomLeft => (top, larger_i64(wy, top + MIN_H as i64)),
        Corner::BottomRight => (top, larger_i64(wy, top + MIN_H as i64)),
    };
    WorldRect::new(clamp_i32(l), clamp_i32(t), cut_u16(rr - l), cut_u16(b - t))
}

/// Cells from a point to the nearest edge of a box, 0 if inside it.
fn rect_distance(r: WorldRect, x: i64, y: i64) -> (d: i64)
    requires
        -0x1_0000_0000 <= x <= 0x1_0000_0000,
        -0x1_0000_0000 <= y <= 0x1_0000_0000,
    ensures
        d == distance(r, x as int, y as int),
{
    let rx: i64 = r.x as i64;
    let ry: i64 = r.y as i64;
    let last_x: i64 = rx + larger_i64(r.width as i64 - 1, 0);
    let last_y: i64 = ry + larger_i64(r.height as i64 - 1, 0);
    let dx: i64 = if x < rx {
        rx - x
    } else {
        larger_i64(x - last_x, 0)
    };
    let dy: i64 = if y < ry {
        ry - y
    } else {
        larger_i64(y - last_y, 0)
    };
    dx + dy
}

/// The board's cell under a cell of the screen.
pub fn world_point(x: u16, y: u16, area: Rect, camera: (i32, i32)) -> (r: (i32, i32))
    ensures
        r == world_at(x as int, y as int, area, camera),
{
    let wx: i64 = x as i64 - area.x as i64 + camera.0 as i64;
    let wy: i64 = y as i64 - area.y as i64 + camera.1 as i64;
    (clamp_i32(wx), clamp_i32(wy))
}

/// The id of the first of the boxes closest to a point.
fn nearest_id(canvas: &Canvas, x: i64, y: i64) -> (r: Option<String>)
    requires
        -0x1_0000_0000 <= x <= 0x1_0000_0000,
        -0x1_0000_0000 <= y <= 0x1_0000_0000,
    ensures
        match r {
            Some(id) => nearest(canvas@.nodes, x as int, y as int) is Some && nearest(
                canvas@.nodes,
                x as int,
                y as int,
            )->0.id == id@,
            None => nearest(canvas@.nodes, x as int, y as int) is None,
        },
{
    let ghost all = canvas@.nodes;
    let n: usize = canvas.nodes.len();
    let mut best: Option<usize> = None;
    let mut i: usize = 0;
    while i < n
        invariant
            i <= n == canvas.nodes@.len(),
            all == canvas@.nodes,
            -0x1_0000_0000 <= x <= 0x1_0000_0000,
            -0x1_0000_0000 <= y <= 0x1_0000_0000,
            match best {
                Some(b) => b < i && nearest(all.take(i as int), x as int, y as int) == Some(
                    canvas.nodes@[b as int]@,
                ),
                None => nearest(all.take(i as int), x as int, y as int) is None,
            },
        decreases n - i,
    {
        proof {
            assert(all.take(i + 1).drop_last() =~= all.take(i as int));
            assert(all.take(i + 1).last() == canvas.nodes@[i as int]@);
        }
        let closer: bool = match best {
            Some(b) => rect_distance(canvas.nodes[i].rect, x, y) < rect_distance(
                canvas.nodes[b].rect,
                x,
                y,
            ),
            None => true,
        };
        if closer {
            best = Some(i);
        }
        i += 1;
    }
    proof {
        assert(all.take(all.len() as int) =~= all);
    }
    match best {
        Some(b) => Some(canvas.nodes[b].id.clone()),
        None => None,
    }
}

/// The rectangle between two cells, at least as large as a box can be made
/// by hand.
fn rect_between(start: (u16, u16), end: (u16, u16)) -> (r: Rect)
    requires
        start.0 < u16::MAX,
        start.1 < u16::MAX,
        end.0 < u16::MAX,
        end.1 < u16::MAX,
    ensures
        r == drawn_rect(start, end),
{
    let x: u16 = if start.0 < end.0 {
        start.0
    } else {
        end.0
    };
    let y: u16 = if start.1 < end.1 {
        start.1
    } else {
        end.1
    };
    let x1: u16 = if start.0 < end.0 {
        end.0
    } else {
        start.0
    };
    let y1: u16 = if start.1 < end.1 {
        end.1
    } else {
        start.1
    };
    let w: u16 = x1 - x + 1;
    let h: u16 = y1 - y + 1;
    Rect {
        x,
        y,
        width: if w < MIN_W {
            MIN_W
        } else {
            w
        },
        height: if h < MIN_H {
            MIN_H
        } else {
            h
        },
    }
}

impl App {
    /// The board's cell under a cell of the screen.
    pub fn to_world(&self, x: u16, y: u16) -> (r: (i32, i32))
        ensures
            r == world_at(x as int, y as int, self.canvas_area, self.camera),
    {
        world_point(x, y, self.canvas_area, self.camera)
    }

    /// The rectangle that is being dragged out on empty canvas, on screen.
    pub fn drawing_preview(&self) -> (r: Option<Rect>)
        requires
            self@.wf(),
        ensures
            r == match self@.drawing {
                Some((start, end)) => Some(drawn_rect(start, end)),
                None => None,
            },
    {
        match self.drawing {
            Some((start, end)) => Some(rect_between(start, end)),
            None => None,
        }
    }

    /// Where a resize in progress would land.
    pub fn resize_preview(&self, bounds: Rect) -> (r: Option<(ShapeId, WorldRect)>)
        ensures
            match r {
                Some((id, rect)) => self@.resizing(bounds) == Some((id@, rect)),
                None => self@.resizing(bounds) is None,
            },
    {
        let (id, corner) = match moving(&self.drag) {
            Some(HitTarget::Resize(id, corner)) => (id, corner),
            _ => {
                return None;
            },
        };
        match &self.resize_origin {
            Some((origin_id, origin_corner, origin)) => {
                if !same_str(origin_id.as_str(), id.as_str()) || *origin_corner != corner {
                    return None;
                }
                match cursor(&self.drag) {
                    Some((cx, cy)) => Some(
                        (id, resized_rect(*origin, corner, cx, cy, bounds, self.camera)),
                    ),
                    None => None,
                }
            },
            None => None,
        }
    }

    /// Notes a click, and says whether it is the second on the same thing
    /// soon after the first.
    fn is_double_click(&mut self, target: Selected, now: u64) -> (r: bool)
        ensures
            (final(self)@, r) == old(self)@.click_noted(target@, now),
            final(self).maps_wf() == old(self).maps_wf(),
    {
        let twice: bool = match &self.last_click {
            Some((before, at)) => before.same(&target) && (now < *at || now - *at < DOUBLE_CLICK),
            None => false,
        };
        self.last_click = Some((target, now));
        twice
    }

    fn click(&mut self, target: Selected, now: u64)
        ensures
            final(self)@ == old(self)@.clicked(target@, now),
            final(self).maps_wf() == old(self).maps_wf(),
    {
        let _done = self.dispatch(Request::Select { id: Some(target.clone()) });
        if self.is_double_click(target.clone(), now) {
            self.begin_edit(target);
        }
    }

    fn unpick(&mut self)
        ensures
            final(self)@ == old(self)@.unpicked(),
            final(self).maps_wf() == old(self).maps_wf(),
    {
        self.color_picker = None;
        self.hover_swatch = None;
    }

    fn click_cell(&mut self, id: ShapeId, row: usize, col: usize, now: u64)
        ensures
            final(self)@ == old(self)@.clicked_cell(id@, row, col, now),
            final(self).maps_wf() == old(self).maps_wf(),
    {
        let mode: Mode = self.mode.clone();
        match mode {
            Mode::EditingCell(open, r, c) => {
                if same_str(open.as_str(), id.as_str()) {
                    self.sync_cell(r, c);
                    self.table_goto(id, row, col);
                    return;
                }
            },
            _ => {},
        }
        let target: Selected = Selected::Node(id.clone());
        let _done = self.dispatch(Request::Select { id: Some(target.clone()) });
        if self.is_double_click(target, now) {
            self.begin_table_edit_at(id, row, col);
        }
    }

    fn click_op(&mut self, id: ShapeId, op: TableOp)
        ensures
            final(self)@ == old(self)@.clicked_op(id@, op),
            final(self).maps_wf() == old(self).maps_wf(),
    {
        let mode: Mode = self.mode.clone();
        match mode {
            Mode::EditingCell(open, row, col) => {
                if same_str(open.as_str(), id.as_str()) {
                    let in_grid: bool = self.cell_in_grid(row, col);
                    let has_row: bool = row < self.editing_table.len();
                    match op {
                        TableOp::AddCol => if in_grid {
                            self.table_insert_col(id, row, col);
                        },
                        TableOp::DelCol => if in_grid {
                            self.table_delete_col(id, row, col);
                        },
                        TableOp::AddRow => if has_row {
                            self.table_insert_row(id, row, col);
                        },
                        TableOp::DelRow => if has_row {
                            self.table_delete_row(id, row, col);
                        },
                    }
                }
            },
            _ => {},
        }
    }

    fn act_click(&mut self, hit: HitTarget, now: u64)
        ensures
            final(self)@ == old(self)@.acted_click(hit@, now),
            final(self).maps_wf() == old(self).maps_wf(),
    {
        match hit {
            HitTarget::Reattach(id, _) => {
                self.unpick();
                self.click(Selected::Edge(id), now);
            },
            HitTarget::ColorMenu(target) => {
                if is_selected(&self.color_picker, &target) {
                    self.color_picker = None;
                } else {
                    self.color_picker = Some(target);
                }
                self.hover_swatch = None;
            },
            HitTarget::ColorSwatch(target, color) => {
                match target {
                    Selected::Node(id) => {
                        let _done = self.dispatch(Request::SetColor { id, color });
                    },
                    Selected::Edge(id) => {
                        let _done = self.dispatch(Request::SetEdgeColor { id, color });
                    },
                }
                self.unpick();
            },
            HitTarget::TableCell(id, row, col) => {
                self.unpick();
                self.click_cell(id, row, col, now);
            },
            HitTarget::TableMenu(id, op) => self.click_op(id, op),
            HitTarget::Move(id) => {
                self.unpick();
                self.click(Selected::Node(id), now);
            },
            HitTarget::Resize(id, _) => {
                self.unpick();
                self.click(Selected::Node(id), now);
            },
            HitTarget::Connect(id, _) => {
                self.unpick();
                self.click(Selected::Node(id), now);
            },
            HitTarget::AnchorDot(id, _) => {
                self.unpick();
                self.click(Selected::Node(id), now);
            },
            HitTarget::Minimap => {},
        }
    }

    fn drop_box(&mut self, id: ShapeId, x: u16, y: u16, area: Rect)
        ensures
            final(self)@ == old(self)@.dropped_box(id@, x, y, area),
            final(self).maps_wf() == old(self).maps_wf(),
    {
        let rect: WorldRect = match self.canvas.node(id.as_str()) {
            Some(node) => node.rect,
            None => {
                return;
            },
        };
        let ax: i64 = area.x as i64;
        let ay: i64 = area.y as i64;
        let max_x: i64 = larger_i64(
            larger_i64(area.right() as i64 - rect.width as i64, 0),
            ax,
        );
        let max_y: i64 = larger_i64(
            larger_i64(area.bottom() as i64 - rect.height as i64, 0),
            ay,
        );
        let nx: i64 = clamp_to(larger_i64(x as i64 - self.grab_offset.0 as i64, 0), ax, max_x);
        let ny: i64 = clamp_to(larger_i64(y as i64 - self.grab_offset.1 as i64, 0), ay, max_y);
        let wx: i32 = clamp_i32(nx - ax + self.camera.0 as i64);
        let wy: i32 = clamp_i32(ny - ay + self.camera.1 as i64);
        let _done = self.dispatch(
            Request::SetRect { id, x: wx, y: wy, w: rect.width, h: rect.height },
        );
    }

    fn drop_corner(&mut self, id: ShapeId, corner: Corner, x: u16, y: u16, area: Rect)
        ensures
            final(self)@ == old(self)@.dropped_corner(id@, corner, x, y, area),
            final(self).maps_wf() == old(self).maps_wf(),
    {
        let ghost before = self@;
        let fits: Option<WorldRect> = match &self.resize_origin {
            Some((origin_id, origin_corner, origin)) => {
                if same_str(origin_id.as_str(), id.as_str()) && *origin_corner == corner {
                    Some(*origin)
                } else {
                    None
                }
            },
            None => None,
        };
        self.resize_origin = None;
        proof {
            assert(self@ == (AppView { resize: None, ..before }));
        }
        if let Some(origin) = fits {
            let r: WorldRect = resized_rect(origin, corner, x, y, area, self.camera);
            let _done = self.dispatch(
                Request::SetRect { id, x: r.x, y: r.y, w: r.width, h: r.height },
            );
        }
    }

    /// The box registered at a cell. A handle there is none: a drop target
    /// has to be a box.
    fn node_at(&self, x: u16, y: u16) -> (r: Option<ShapeId>)
        requires
            self.maps_wf(),
        ensures
            opt_view(r) == match self@.hit_at(x, y) {
                Some((t, _)) => t.node(),
                None => None,
            },
    {
        match self.hits.at(x, y) {
            Some((target, _)) => match target.node_id() {
                Some(id) => Some(id.clone()),
                None => None,
            },
            None => None,
        }
    }

    /// The box closest to a cell: a drop that missed a box by a little
    /// should still connect.
    fn nearest_node(&self, x: u16, y: u16, area: Rect) -> (r: Option<ShapeId>)
        ensures
            opt_view(r) == match nearest(
                self@.canvas.nodes,
                x - area.x + self@.camera.0,
                y - area.y + self@.camera.1,
            ) {
                Some(node) => Some(node.id),
                None => None,
            },
    {
        let wx: i64 = x as i64 - area.x as i64 + self.camera.0 as i64;
        let wy: i64 = y as i64 - area.y as i64 + self.camera.1 as i64;
        nearest_id(&self.canvas, wx, wy)
    }

    fn find_drop(&self, x: u16, y: u16, area: Rect) -> (r: Option<ShapeId>)
        requires
            self.maps_wf(),
        ensures
            opt_view(r) == self@.drop_target(x, y, area),
    {
        match self.node_at(x, y) {
            Some(id) => Some(id),
            None => self.nearest_node(x, y, area),
        }
    }

    /// Finds the row or column of a box that a cell of the screen is at.
    fn find_anchor(&self, x: u16, y: u16, id: &str) -> (r: Option<CellAnchor>)
        requires
            self.maps_wf(),
        ensures
            r == anchor_at(self@.hit_at(x, y), id@),
    {
        match self.hits.at(x, y) {
            Some((HitTarget::TableCell(at, row, col), _)) => if same_str(at.as_str(), id) {
                Some(cell_anchor_for(row, col))
            } else {
                None
            },
            Some((HitTarget::AnchorDot(at, a), _)) => if same_str(at.as_str(), id) {
                Some(a)
            } else {
                None
            },
            _ => None,
        }
    }

    /// Lines the newest connector up with table rows or columns.
    fn set_anchors(&mut self, from: Option<CellAnchor>, to: Option<CellAnchor>)
        requires
            old(self).canvas.edges@.len() > 0,
        ensures
            final(self)@ == old(self)@.with_anchors(from, to),
            final(self).maps_wf() == old(self).maps_wf(),
    {
        let ghost before = self@;
        let last: usize = self.canvas.edges.len() - 1;
        self.canvas.edges[last].from_anchor = from;
        self.canvas.edges[last].to_anchor = to;
        proof {
            assert(self@.canvas.edges =~= before.with_anchors(from, to).canvas.edges);
        }
    }

    fn drop_connector(
        &mut self,
        from: ShapeId,
        anchor: Option<CellAnchor>,
        x: u16,
        y: u16,
        area: Rect,
    )
        requires
            old(self).maps_wf(),
            old(self).canvas.next_id < u64::MAX,
        ensures
            final(self)@ == old(self)@.dropped_connector(from@, anchor, x, y, area),
            final(self).maps_wf(),
    {
        match self.find_drop(x, y, area) {
            Some(to) => {
                if same_str(to.as_str(), from.as_str()) {
                    self.status = "can't connect a box to itself".to_owned();
                } else {
                    let far: Option<CellAnchor> = self.find_anchor(x, y, to.as_str());
                    let done: Result<Response, String> = self.dispatch(
                        Request::Connect { from, to },
                    );
                    if done.is_ok() {
                        proof {
                            reveal(AppView::applied);
                        }
                        self.set_anchors(anchor, far);
                    }
                    self.status = String::new();
                    proof {
                        assert(self.status@ =~= Seq::empty());
                    }
                }
            },
            None => {
                self.status = "nothing to connect to".to_owned();
            },
        }
    }

    fn drop_end(&mut self, id: String, end: Endpoint, x: u16, y: u16, area: Rect)
        requires
            old(self).maps_wf(),
        ensures
            final(self)@ == old(self)@.dropped_end(id@, end, x, y, area),
            final(self).maps_wf(),
    {
        match self.find_drop(x, y, area) {
            Some(node) => {
                let name: String = match end {
                    Endpoint::From => "from".to_owned(),
                    Endpoint::To => "to".to_owned(),
                };
                match self.dispatch(Request::Reattach { id, end: name, node }) {
                    Ok(_) => {
                        self.status = String::new();
                        proof {
                            assert(self.status@ =~= Seq::empty());
                        }
                    },
                    Err(msg) => {
                        self.status = msg;
                    },
                }
            },
            None => {
                self.status = "nothing to attach to".to_owned();
            },
        }
    }

    fn act(&mut self, did: Did, area: Rect, now: u64)
        requires
            old(self).maps_wf(),
            old(self).canvas.next_id < u64::MAX,
        ensures
            final(self)@ == old(self)@.acted(did@, area, now),
            final(self).maps_wf(),
    {
        match did {
            Did::Click(hit) => self.act_click(hit, now),
            Did::Lift(HitTarget::Resize(id, corner)) => {
                let found: Option<WorldRect> = match self.canvas.node(id.as_str()) {
                    Some(node) => Some(node.rect),
                    None => None,
                };
                if let Some(rect) = found {
                    self.resize_origin = Some((id, corner, rect));
                }
            },
            Did::Drop { key: HitTarget::Move(id), x, y } => self.drop_box(id, x, y, area),
            Did::Drop { key: HitTarget::Resize(id, corner), x, y } => self.drop_corner(
                id,
                corner,
                x,
                y,
                area,
            ),
            Did::Drop { key: HitTarget::Connect(from, anchor), x, y } => self.drop_connector(
                from,
                anchor,
                x,
                y,
                area,
            ),
            Did::Drop { key: HitTarget::Reattach(id, end), x, y } => self.drop_end(
                id,
                end,
                x,
                y,
                area,
            ),
            _ => {},
        }
    }

    fn hover(&mut self, ev: MouseInput)
        requires
            old(self).maps_wf(),
            ev.kind == MouseKind::Moved,
        ensures
            final(self)@ == old(self)@.hovered(ev),
            final(self).maps_wf(),
    {
        self.hover_swatch = match self.hits.at(ev.column, ev.row) {
            Some((HitTarget::ColorSwatch(target, color), _)) => Some(
                (
                    target,
                    match color {
                        Some(c) => Some(Color::parse(c.as_str())),
                        None => None,
                    },
                ),
            ),
            _ => None,
        };
        self.hover_cell = match self.hits.at(ev.column, ev.row) {
            Some((HitTarget::TableCell(id, row, col), _)) => Some((id, cell_anchor_for(row, col))),
            Some((HitTarget::AnchorDot(id, a), _)) => Some((id, a)),
            _ => None,
        };
    }

    fn press(&mut self, ev: MouseInput, area: Rect)
        requires
            old(self).maps_wf(),
            ev.kind == MouseKind::Down,
        ensures
            final(self)@ == old(self)@.pressed(ev, area),
            final(self).maps_wf(),
    {
        let hit: Option<(HitTarget, Rect)> = self.hits.at(ev.column, ev.row);
        let stays: bool = match &hit {
            Some((HitTarget::TableMenu(id, _), _)) => match &self.mode {
                Mode::EditingCell(open, _, _) => same_str(id.as_str(), open.as_str()),
                _ => false,
            },
            Some((HitTarget::TableCell(id, _, _), _)) => match &self.mode {
                Mode::EditingCell(open, _, _) => same_str(id.as_str(), open.as_str()),
                _ => false,
            },
            _ => false,
        };
        proof {
            assert(stays == self@.stays_in_table(self@.hit_at(ev.column, ev.row)));
        }
        if !stays {
            self.commit_edit();
        }
        let ghost s = self@;
        match &hit {
            Some((target, r)) => {
                let grabs: bool = match target {
                    HitTarget::Move(_) => !ev.shift,
                    _ => false,
                };
                if grabs {
                    self.grab_offset = (
                        ev.column.saturating_sub(r.x),
                        ev.row.saturating_sub(r.y),
                    );
                }
                self.drawing = None;
                self.press_on_edge = None;
            },
            None => {
                match self.edge_hits.at(ev.column, ev.row) {
                    Some((id, _)) => {
                        self.press_on_edge = Some((id, ev.column, ev.row));
                        self.drawing = None;
                    },
                    None => {
                        self.press_on_edge = None;
                        self.drawing = if area.contains(ev.column, ev.row) {
                            Some(((ev.column, ev.row), (ev.column, ev.row)))
                        } else {
                            None
                        };
                    },
                }
            },
        }
    }

    fn stretch(&mut self, ev: MouseInput, area: Rect)
        requires
            old(self)@.drawing is Some ==> AppView::has_cells(area),
        ensures
            final(self)@ == old(self)@.stretched(ev, area),
            final(self).maps_wf() == old(self).maps_wf(),
    {
        if let Some((start, _)) = self.drawing {
            let cx: i64 = clamp_to(ev.column as i64, area.x as i64, area.right() as i64 - 1);
            let cy: i64 = clamp_to(ev.row as i64, area.y as i64, area.bottom() as i64 - 1);
            self.drawing = Some((start, (cx as u16, cy as u16)));
        }
    }

    fn place_drawn(&mut self, start: (u16, u16), end: (u16, u16), area: Rect)
        requires
            old(self).canvas.next_id < u64::MAX,
            start.0 < u16::MAX,
            start.1 < u16::MAX,
            end.0 < u16::MAX,
            end.1 < u16::MAX,
        ensures
            final(self)@ == old(self)@.placed_drawn(start, end, area),
            final(self).maps_wf() == old(self).maps_wf(),
    {
        let r: Rect = rect_between(start, end);
        let (wx, wy) = world_point(r.x, r.y, area, self.camera);
        let reply = self.dispatch(
            Request::Place { x: wx, y: wy, w: Some(r.width), h: Some(r.height) },
        );
        proof {
            reveal(AppView::applied);
        }
        if let Ok(Response::Placed { id }) = reply {
            let target: Selected = Selected::Node(id);
            self.selected = Some(target.clone());
            self.begin_edit(target);
        }
    }

    fn release(&mut self, ev: MouseInput, area: Rect, now: u64)
        requires
            old(self).maps_wf(),
            old(self)@.drawing is Some ==> old(self).canvas.next_id < u64::MAX,
            match old(self)@.drawing {
                Some((start, end)) => start.0 < u16::MAX && start.1 < u16::MAX && end.0 < u16::MAX
                    && end.1 < u16::MAX,
                None => true,
            },
        ensures
            final(self)@ == old(self)@.released(ev, area, now),
            final(self).maps_wf(),
    {
        let ghost before = self@;
        let pressed: Option<String> = match &self.press_on_edge {
            Some((id, px, py)) => {
                if *px == ev.column && *py == ev.row {
                    Some(id.clone())
                } else {
                    None
                }
            },
            None => None,
        };
        self.press_on_edge = None;
        if let Some(id) = pressed {
            self.click(Selected::Edge(id), now);
            return;
        }
        let drawing: Option<((u16, u16), (u16, u16))> = self.drawing;
        self.drawing = None;
        proof {
            assert(self@ == (AppView { press: None, drawing: None, ..before }));
        }
        if let Some((start, end)) = drawing {
            if start.0 != end.0 || start.1 != end.1 {
                self.place_drawn(start, end, area);
            } else if self.selected.is_some() {
                let _done = self.dispatch(Request::Select { id: None });
                self.unpick();
            }
        }
    }

    /// Whether a mouse event can be taken as things stand.
    pub fn can_take_mouse(&self, ev: &MouseInput, area: Rect) -> (r: bool)
        ensures
            r == self@.mouse_fits(*ev, area),
    {
        if self.canvas.next_id >= u64::MAX - 1 {
            return false;
        }
        let has_cells: bool = area.x < area.right() && area.y < area.bottom();
        match ev.kind {
            MouseKind::Drag => self.drawing.is_none() || has_cells,
            MouseKind::Up => match moving(&self.drag) {
                Some(HitTarget::Resize(_, _)) => self.resize_origin.is_none() || has_cells,
                _ => true,
            },
            _ => true,
        }
    }

    /// Takes a mouse event over the canvas, at a time in nanoseconds.
    pub fn on_mouse(&mut self, ev: MouseInput, canvas_area: Rect, now: u64)
        requires
            old(self).wf(),
            old(self)@.mouse_fits(ev, canvas_area),
        ensures
            final(self)@ == old(self)@.moused(ev, canvas_area, now),
            final(self).wf(),
    {
        let ghost before = self@;
        proof {
            lemma_mouse_keeps(before, ev, canvas_area, now);
        }
        let hit: Option<(HitTarget, Rect)> = match self.hits.at(ev.column, ev.row) {
            Some((HitTarget::Move(id), r)) => if ev.kind == MouseKind::Down && ev.shift {
                Some((HitTarget::Connect(id, None), r))
            } else {
                Some((HitTarget::Move(id), r))
            },
            Some((HitTarget::AnchorDot(id, a), r)) => if ev.kind == MouseKind::Down {
                Some((HitTarget::Connect(id, Some(a)), r))
            } else {
                Some((HitTarget::AnchorDot(id, a), r))
            },
            other => other,
        };
        proof {
            assert(hit_view(hit) == taken_hit(before.hit_at(ev.column, ev.row), ev));
        }
        match ev.kind {
            MouseKind::Moved => self.hover(ev),
            MouseKind::Down => self.press(ev, canvas_area),
            MouseKind::Drag => self.stretch(ev, canvas_area),
            _ => {},
        }
        let ghost s = self@;
        proof {
            assert(s == before.prepared(ev, canvas_area));
            lemma_prepared(before, ev, canvas_area);
        }
        let did: Did = feed_drag(&mut self.drag, ev, hit);
        let ghost t = self@;
        self.act(did, canvas_area, now);
        if ev.kind == MouseKind::Up {
            proof {
                lemma_acted(t, did@, canvas_area, now);
            }
            self.release(ev, canvas_area, now);
        }
    }
}

} // verus!

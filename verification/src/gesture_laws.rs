//! What a press, a drag and a click with the mouse come to, from the event to
//! the board.

use vstd::prelude::*;

use crate::app::{AppView, ModeView, RequestView, DOUBLE_CLICK};
use crate::app_laws::lemma_noted_first;
use crate::geometry::{max, Rect};
use crate::model::{CellAnchor, EdgeEnd, EdgeView, WorldRect};
use crate::mouse::{clamped, nearest, resized, world_at};
use crate::mouse_laws::{
    is_place, lemma_dropped_box_is_under_the_pointer, lemma_dropped_corner_resizes_the_box,
    lemma_drawn_box_spans_both_cells,
};
use crate::pointer::{drag_key, last_at, DragView, MouseInput, MouseKind};
use crate::request_laws::{
    differs_in_connector, is_first_connector, lemma_connect_adds_one_connector,
    lemma_reattach_moves_one_end,
};
use crate::route::on_screen;
use crate::target::{Corner, Endpoint, HitView, SelectedView};

verus! {

/// What was put last lies on top: a cell hits the last spot that has it, and
/// nothing only where no spot has it.
pub proof fn lemma_top_spot_is_hit<K>(spots: Seq<(Rect, K)>, x: u16, y: u16)
    ensures
        last_at(spots, x, y) is None <==> forall|i: int|
            0 <= i < spots.len() ==> !(#[trigger] spots[i]).0.has(x, y),
        last_at(spots, x, y) is Some ==> exists|i: int|
            0 <= i < spots.len() && last_at(spots, x, y) == Some(#[trigger] spots[i])
                && spots[i].0.has(x, y) && forall|j: int|
                i < j < spots.len() ==> !(#[trigger] spots[j]).0.has(x, y),
    decreases spots.len(),
{
    if spots.len() > 0 {
        let rest = spots.drop_last();
        let n = spots.len() - 1;
        lemma_top_spot_is_hit(rest, x, y);
        if spots[n].0.has(x, y) {
            assert(last_at(spots, x, y) == Some(spots[n]));
        } else if last_at(rest, x, y) is Some {
            let i = choose|i: int|
                0 <= i < rest.len() && last_at(rest, x, y) == Some(#[trigger] rest[i])
                    && rest[i].0.has(x, y) && forall|j: int|
                    i < j < rest.len() ==> !(#[trigger] rest[j]).0.has(x, y);
            assert(spots[i] == rest[i]);
            assert forall|j: int| i < j < spots.len() implies !(#[trigger] spots[j]).0.has(x, y) by {
                if j < n {
                    assert(rest[j] == spots[j]);
                }
            }
        } else {
            assert forall|i: int| 0 <= i < spots.len() implies !(#[trigger] spots[i]).0.has(
                x,
                y,
            ) by {
                if i < n {
                    assert(rest[i] == spots[i]);
                }
            }
        }
    }
}

/// A cell of the board is seen at one cell of the screen, and that cell of
/// the screen shows it: looking from further right moves what is seen left.
pub proof fn lemma_screen_and_board_agree(
    r: WorldRect,
    area: Rect,
    camera: (i32, i32),
    x: int,
    y: int,
)
    requires
        is_place(x - area.x + camera.0),
        is_place(y - area.y + camera.1),
    ensures
        world_at(
            on_screen(r, camera, area).x as int,
            on_screen(r, camera, area).y as int,
            area,
            camera,
        ) == (r.x, r.y),
        on_screen(
            WorldRect {
                x: world_at(x, y, area, camera).0,
                y: world_at(x, y, area, camera).1,
                ..r
            },
            camera,
            area,
        ).x == x,
        on_screen(
            WorldRect {
                x: world_at(x, y, area, camera).0,
                y: world_at(x, y, area, camera).1,
                ..r
            },
            camera,
            area,
        ).y == y,
        on_screen(r, camera, area).width == r.width,
        on_screen(r, camera, area).height == r.height,
        camera.0 < i32::MAX ==> on_screen(r, ((camera.0 + 1) as i32, camera.1), area).x
            == on_screen(r, camera, area).x - 1,
{
}

/// Letting go of a box that is being moved drops it by the cell that it was
/// grabbed at.
pub proof fn lemma_release_drops_the_box(
    a: AppView,
    ev: MouseInput,
    area: Rect,
    now: u64,
    id: Seq<char>,
)
    requires
        ev.kind == MouseKind::Up,
        drag_key(a.drag) == Some(HitView::Move(id)),
        a.press is None,
        a.drawing is None,
        a.canvas.has_node(id),
        a.canvas.node(id)->0.rect.width > 0,
        a.canvas.node(id)->0.rect.height > 0,
        area.fits(),
        area.x <= ev.column - a.grab.0,
        ev.column - a.grab.0 + a.canvas.node(id)->0.rect.width <= area.x + area.width,
        area.y <= ev.row - a.grab.1,
        ev.row - a.grab.1 + a.canvas.node(id)->0.rect.height <= area.y + area.height,
        is_place(ev.column - a.grab.0 - area.x + a.camera.0),
        is_place(ev.row - a.grab.1 - area.y + a.camera.1),
    ensures
        ({
            let b = a.moused(ev, area, now);
            let before = a.canvas.node(id)->0.rect;
            let after = b.canvas.node(id)->0.rect;
            &&& b.drag is Idle
            &&& b.canvas.has_node(id)
            &&& after.width == before.width && after.height == before.height
            &&& after.x - a.camera.0 + area.x + a.grab.0 == ev.column
            &&& after.y - a.camera.1 + area.y + a.grab.1 == ev.row
            &&& b.canvas.edges == a.canvas.edges
            &&& forall|i: int|
                0 <= i < a.canvas.nodes.len() && (#[trigger] a.canvas.nodes[i]).id != id
                    ==> b.canvas.nodes[i] == a.canvas.nodes[i]
        }),
{
    let s = AppView { drag: DragView::Idle, ..a };
    lemma_dropped_box_is_under_the_pointer(s, id, ev.column, ev.row, area);
    reveal(AppView::applied);
    let r = a.canvas.node(id)->0.rect;
    let nx = clamped(
        max(ev.column - a.grab.0, 0),
        area.x as int,
        max(max(area.x_end() - r.width, 0), area.x as int),
    );
    let ny = clamped(
        max(ev.row - a.grab.1, 0),
        area.y as int,
        max(max(area.y_end() - r.height, 0), area.y as int),
    );
    let (wx, wy) = world_at(nx, ny, area, a.camera);
    lemma_noted_first(s, RequestView::SetRect { id, x: wx, y: wy, w: r.width, h: r.height });
}

/// A box that is pressed is grabbed at the cell that was pressed; with shift
/// held, a connector is drawn from it instead.
pub proof fn lemma_press_grabs_the_box(
    a: AppView,
    ev: MouseInput,
    area: Rect,
    now: u64,
    id: Seq<char>,
    r: Rect,
)
    requires
        ev.kind == MouseKind::Down,
        a.hit_at(ev.column, ev.row) == Some((HitView::Move(id), r)),
        r.has(ev.column, ev.row),
    ensures
        ({
            let b = a.moused(ev, area, now);
            &&& ev.shift ==> b.drag == (DragView::Armed {
                key: HitView::Connect(id, None),
                rect: r,
                x: ev.column,
                y: ev.row,
            })
            &&& !ev.shift ==> {
                &&& b.drag == (DragView::Armed {
                    key: HitView::Move(id),
                    rect: r,
                    x: ev.column,
                    y: ev.row,
                })
                &&& r.x + b.grab.0 == ev.column
                &&& r.y + b.grab.1 == ev.row
            }
        }),
{
}

/// Letting go of a corner gives the box the size that the corner was dragged
/// to.
pub proof fn lemma_release_resizes_the_box(
    a: AppView,
    ev: MouseInput,
    area: Rect,
    now: u64,
    id: Seq<char>,
    corner: Corner,
    origin: WorldRect,
)
    requires
        ev.kind == MouseKind::Up,
        drag_key(a.drag) == Some(HitView::Resize(id, corner)),
        a.resize == Some((id, corner, origin)),
        a.press is None,
        a.drawing is None,
        a.canvas.has_node(id),
        resized(origin, corner, ev.column, ev.row, area, a.camera).width > 0,
        resized(origin, corner, ev.column, ev.row, area, a.camera).height > 0,
    ensures
        ({
            let b = a.moused(ev, area, now);
            &&& b.canvas.has_node(id)
            &&& b.canvas.node(id)->0.rect == resized(
                origin,
                corner,
                ev.column,
                ev.row,
                area,
                a.camera,
            )
            &&& b.canvas.edges == a.canvas.edges
            &&& forall|i: int|
                0 <= i < a.canvas.nodes.len() && (#[trigger] a.canvas.nodes[i]).id != id
                    ==> b.canvas.nodes[i] == a.canvas.nodes[i]
        }),
{
    let s = AppView { drag: DragView::Idle, ..a };
    lemma_dropped_corner_resizes_the_box(s, id, corner, origin, ev.column, ev.row, area);
    reveal(AppView::applied);
    let t = AppView { resize: None, ..s };
    let r = resized(origin, corner, ev.column, ev.row, area, a.camera);
    lemma_noted_first(
        t,
        RequestView::SetRect { id, x: r.x, y: r.y, w: r.width, h: r.height },
    );
}

/// Leaving the pressed cell of a corner notes the box as it is, so that the
/// drag starts from there.
pub proof fn lemma_lifted_corner_notes_the_box(
    a: AppView,
    ev: MouseInput,
    area: Rect,
    now: u64,
    id: Seq<char>,
    corner: Corner,
    r: Rect,
    x: u16,
    y: u16,
)
    requires
        ev.kind == MouseKind::Drag,
        a.drag == (DragView::Armed { key: HitView::Resize(id, corner), rect: r, x, y }),
        ev.column != x || ev.row != y,
        a.drawing is None,
        a.canvas.has_node(id),
    ensures
        ({
            let b = a.moused(ev, area, now);
            &&& drag_key(b.drag) == Some(HitView::Resize(id, corner))
            &&& b.resize == Some((id, corner, a.canvas.node(id)->0.rect))
            &&& b.canvas == a.canvas
        }),
{
}

/// Whether a drop at a cell means a box: the one there, or else the nearest.
pub open spec fn means(a: AppView, x: u16, y: u16, area: Rect, id: Seq<char>) -> bool {
    match last_at(a.hits, x, y) {
        Some((_, t)) if t.node() is Some => t.node() == Some(id),
        _ => nearest(
            a.canvas.nodes,
            x - area.x + a.camera.0,
            y - area.y + a.camera.1,
        ) matches Some(n) && n.id == id,
    }
}

/// A connector that is dropped runs from the box that it was drawn from to
/// the box that the drop means, and is the only thing new on the board. It
/// lines up with the row or column that it was drawn from. On the box itself
/// it is not made.
pub proof fn lemma_release_connects_the_boxes(
    a: AppView,
    ev: MouseInput,
    area: Rect,
    now: u64,
    from: Seq<char>,
    anchor: Option<CellAnchor>,
    to: Seq<char>,
)
    requires
        ev.kind == MouseKind::Up,
        drag_key(a.drag) == Some(HitView::Connect(from, anchor)),
        a.press is None,
        a.drawing is None,
        a.canvas.wf(),
        a.canvas.next_id < u64::MAX,
        a.canvas.has_node(from),
        a.canvas.has_node(to),
        means(a, ev.column, ev.row, area, to),
    ensures
        ({
            let b = a.moused(ev, area, now);
            let n = a.canvas.edges.len() as int;
            &&& from == to ==> b.canvas == a.canvas
            &&& from != to ==> {
                &&& b.canvas.nodes == a.canvas.nodes
                &&& b.canvas.edges.len() == n + 1
                &&& forall|k: int|
                    0 <= k < n ==> #[trigger] b.canvas.edges[k] == a.canvas.edges[k]
                &&& b.canvas.edges[n].from == from && b.canvas.edges[n].to == to
                &&& b.canvas.edges[n].from_anchor == anchor
                &&& b.canvas.edges[n].to_end == EdgeEnd::Arrow
                &&& b.canvas.edges[n].from_end == EdgeEnd::Plain
            }
        }),
{
    let s = AppView { drag: DragView::Idle, ..a };
    lemma_connect_adds_one_connector(s, from, to);
    assert(s.drop_target(ev.column, ev.row, area) == Some(to));
    if from != to {
        reveal(AppView::applied);
        lemma_noted_first(s, RequestView::Connect { from, to });
    }
}

/// An end of a connector that is dropped is at the box that the drop means,
/// unless the other end is there; nothing else on the board changes.
pub proof fn lemma_release_reattaches_the_end(
    a: AppView,
    ev: MouseInput,
    area: Rect,
    now: u64,
    id: Seq<char>,
    end: Endpoint,
    node: Seq<char>,
    i: int,
)
    requires
        ev.kind == MouseKind::Up,
        drag_key(a.drag) == Some(HitView::Reattach(id, end)),
        a.press is None,
        a.drawing is None,
        is_first_connector(a.canvas, id, i),
        a.canvas.has_node(node),
        means(a, ev.column, ev.row, area, node),
    ensures
        ({
            let b = a.moused(ev, area, now);
            let (was, now) = (a.canvas.edges[i], b.canvas.edges[i]);
            match end {
                Endpoint::From => if was.to == node {
                    b.canvas == a.canvas
                } else {
                    differs_in_connector(a.canvas, b.canvas, i) && now == (EdgeView {
                        from: node,
                        ..was
                    })
                },
                Endpoint::To => if was.from == node {
                    b.canvas == a.canvas
                } else {
                    differs_in_connector(a.canvas, b.canvas, i) && now == (EdgeView {
                        to: node,
                        ..was
                    })
                },
            }
        }),
{
    let s = AppView { drag: DragView::Idle, ..a };
    assert(s.drop_target(ev.column, ev.row, area) == Some(node));
    lemma_reattach_moves_one_end(s, id, node, i);
    reveal(AppView::applied);
    lemma_noted_first(s, RequestView::Reattach { id, end: "from"@, node });
    lemma_noted_first(s, RequestView::Reattach { id, end: "to"@, node });
    reveal_strlit("from");
    reveal_strlit("to");
}

/// A rectangle dragged out on empty canvas becomes a new box over the cells
/// that it was dragged across, selected and open to type into.
pub proof fn lemma_release_places_the_drawn_box(
    a: AppView,
    ev: MouseInput,
    area: Rect,
    now: u64,
    start: (u16, u16),
    end: (u16, u16),
)
    requires
        ev.kind == MouseKind::Up,
        a.drag is Idle,
        a.press is None,
        a.drawing == Some((start, end)),
        start != end,
        start.0 < 0x8000 && start.1 < 0x8000 && end.0 < 0x8000 && end.1 < 0x8000,
        is_place(start.0 - area.x + a.camera.0),
        is_place(start.1 - area.y + a.camera.1),
        is_place(end.0 - area.x + a.camera.0),
        is_place(end.1 - area.y + a.camera.1),
    ensures
        ({
            let b = a.moused(ev, area, now);
            let n = a.canvas.nodes.len() as int;
            let new = b.canvas.nodes[n];
            let seen = on_screen(new.rect, a.camera, area);
            &&& b.canvas.nodes.len() == n + 1
            &&& forall|k: int| 0 <= k < n ==> #[trigger] b.canvas.nodes[k] == a.canvas.nodes[k]
            &&& b.canvas.edges == a.canvas.edges
            &&& seen.has((start.0 as int, start.1 as int))
            &&& seen.has((end.0 as int, end.1 as int))
            &&& seen.x == start.0 || seen.x == end.0
            &&& seen.y == start.1 || seen.y == end.1
            &&& b.selected == Some(SelectedView::Node(new.id))
            &&& b.mode == ModeView::Editing(SelectedView::Node(new.id))
            &&& b.drawing is None
        }),
{
    reveal(AppView::applied);
    lemma_drawn_box_spans_both_cells(start, end);
    let s = AppView { drawing: None, press: None, drag: DragView::Idle, ..a };
    let r = crate::mouse::drawn_rect(start, end);
    let (wx, wy) = world_at(r.x as int, r.y as int, area, a.camera);
    lemma_noted_first(
        s,
        RequestView::Place { x: wx, y: wy, w: Some(r.width), h: Some(r.height) },
    );
}

/// A press on empty canvas starts a rectangle there, a drag stretches it to
/// the pointer, and a release where it started places nothing: it clears the
/// selection.
pub proof fn lemma_press_starts_a_rectangle(a: AppView, ev: MouseInput, area: Rect, now: u64)
    requires
        area.has(ev.column, ev.row),
    ensures
        ev.kind == MouseKind::Down && a.hit_at(ev.column, ev.row) is None && last_at(
            a.committed().edge_hits,
            ev.column,
            ev.row,
        ) is None ==> a.moused(ev, area, now).drawing == Some(
            ((ev.column, ev.row), (ev.column, ev.row)),
        ),
        ev.kind == MouseKind::Drag && a.drag is Idle && a.drawing is Some ==> a.moused(
            ev,
            area,
            now,
        ).drawing == Some(((a.drawing->0).0, (ev.column, ev.row))),
        ev.kind == MouseKind::Up && a.drag is Idle && a.press is None && a.drawing is Some && (
        a.drawing->0).0 == (a.drawing->0).1 ==> ({
            let b = a.moused(ev, area, now);
            b.canvas == a.canvas && b.selected is None && b.drawing is None
        }),
{
    reveal(AppView::applied);
}

/// A click selects what was clicked. It opens it to type into just where the
/// click before it was on the same thing and not long ago.
pub proof fn lemma_click_selects(a: AppView, target: SelectedView, now: u64)
    ensures
        ({
            let b = a.clicked(target, now);
            &&& b.canvas == a.canvas
            &&& b.selected == Some(target)
            &&& b.color_picker == a.color_picker
            &&& b.drag == a.drag
            &&& b.press == a.press && b.drawing == a.drawing
            &&& b.last_click == Some((target, now))
            &&& b.mode == ModeView::Editing(target) || b.mode == a.mode
            &&& (a.last_click matches Some((before, at)) && before == target && at <= now < at
                + DOUBLE_CLICK) ==> b.mode == ModeView::Editing(target) && b.editing_text
                == a.text_of(target)
            &&& (a.last_click is None || (a.last_click->0).0 != target || now >= (
            a.last_click->0).1 + DOUBLE_CLICK) ==> b.mode == a.mode && b.editing_text
                == a.editing_text
        }),
{
    reveal(AppView::applied);
}

/// A click with the mouse on a box, its corner or a connector's handle selects
/// the box or the connector, and closes the color picker.
pub proof fn lemma_click_is_on_what_was_pressed(
    a: AppView,
    ev: MouseInput,
    area: Rect,
    now: u64,
    key: HitView,
    r: Rect,
    x: u16,
    y: u16,
)
    requires
        ev.kind == MouseKind::Up,
        a.drag == (DragView::Armed { key, rect: r, x, y }),
        a.press is None,
        a.drawing is None,
    ensures
        ({
            let b = a.moused(ev, area, now);
            &&& key matches HitView::Move(id) ==> b.selected == Some(SelectedView::Node(id))
                && b.color_picker is None
            &&& key matches HitView::Resize(id, _) ==> b.selected == Some(SelectedView::Node(id))
                && b.color_picker is None
            &&& key matches HitView::Reattach(id, _) ==> b.selected == Some(SelectedView::Edge(id))
                && b.color_picker is None
            &&& key matches HitView::ColorMenu(t) ==> b.color_picker == if a.color_picker == Some(
                t,
            ) {
                None
            } else {
                Some(t)
            }
            &&& key is Minimap ==> b.canvas == a.canvas && b.selected == a.selected
        }),
{
    let s = (AppView { drag: DragView::Idle, ..a }).unpicked();
    match key {
        HitView::Move(id) => lemma_click_selects(s, SelectedView::Node(id), now),
        HitView::Resize(id, _) => lemma_click_selects(s, SelectedView::Node(id), now),
        HitView::Reattach(id, _) => lemma_click_selects(s, SelectedView::Edge(id), now),
        HitView::ColorMenu(_) => {},
        HitView::Minimap => {},
        _ => {},
    }
}

/// A click on a swatch of the picker gives the box or connector that color,
/// or clears it, and closes the picker.
pub proof fn lemma_swatch_sets_the_color(
    a: AppView,
    target: SelectedView,
    color: Option<Seq<char>>,
    now: u64,
)
    ensures
        ({
            let b = a.acted_click(HitView::ColorSwatch(target, color), now);
            &&& b.color_picker is None && b.hover_swatch is None
            &&& target matches SelectedView::Node(id) ==> b.canvas == a.dispatched(
                RequestView::SetColor { id, color },
            ).0.canvas
            &&& target matches SelectedView::Edge(id) ==> b.canvas == a.dispatched(
                RequestView::SetEdgeColor { id, color },
            ).0.canvas
        }),
{
}

/// A press on a connector that is let go where it was pressed selects the
/// connector.
pub proof fn lemma_release_on_a_connector_selects_it(
    a: AppView,
    ev: MouseInput,
    area: Rect,
    now: u64,
    id: Seq<char>,
)
    requires
        ev.kind == MouseKind::Up,
        a.drag is Idle,
        a.press == Some((id, ev.column, ev.row)),
    ensures
        a.moused(ev, area, now).selected == Some(SelectedView::Edge(id)),
        a.moused(ev, area, now).canvas == a.canvas,
        a.moused(ev, area, now).press is None,
{
    reveal(AppView::applied);
}

/// The pointer over a swatch previews its color; elsewhere nothing is
/// previewed. A move never changes the board.
pub proof fn lemma_hover_previews(a: AppView, ev: MouseInput, area: Rect, now: u64)
    requires
        ev.kind == MouseKind::Moved,
    ensures
        ({
            let b = a.moused(ev, area, now);
            &&& b.canvas == a.canvas && b.selected == a.selected && b.mode == a.mode
            &&& b.hover_swatch is Some <==> (a.hit_at(ev.column, ev.row) matches Some((h, _))
                && h is ColorSwatch)
            &&& a.hit_at(ev.column, ev.row) matches Some((HitView::ColorSwatch(t, c), _)) ==> (
            b.hover_swatch->0).0 == t && ((b.hover_swatch->0).1 is None <==> c is None)
            &&& a.hit_at(ev.column, ev.row) matches Some((HitView::TableCell(id, row, col), _))
                ==> b.hover_cell == Some((id, CellAnchor { row: Some(row), col: Some(col) }))
        }),
{
}

/// A press takes what lies on top under the pointer. With shift held a box is
/// taken to draw a connector from it; a table's dot always is, from its row or
/// column.
pub proof fn lemma_press_takes_what_is_hit(
    a: AppView,
    ev: MouseInput,
    area: Rect,
    now: u64,
    key: HitView,
    r: Rect,
)
    requires
        ev.kind == MouseKind::Down,
        a.mode is Normal,
        a.hit_at(ev.column, ev.row) == Some((key, r)),
    ensures
        ({
            let b = a.moused(ev, area, now);
            let taken = match key {
                HitView::Move(id) if ev.shift => HitView::Connect(id, None),
                HitView::AnchorDot(id, anchor) => HitView::Connect(id, Some(anchor)),
                _ => key,
            };
            &&& b.drag == (DragView::Armed { key: taken, rect: r, x: ev.column, y: ev.row })
            &&& b.canvas == a.canvas && b.selected == a.selected
        }),
{
}

} // verus!

//! What holds of boxes that are drawn, moved and resized with the mouse.

use vstd::prelude::*;

use crate::app::{AppView, RequestView, MIN_H, MIN_W};
use crate::app_laws::lemma_noted_first;
use crate::geometry::{max, Rect};
use crate::model::{find_node, lemma_find_node, CanvasView, NodeView, WorldRect};
use crate::mouse::{clamped, distance, drawn_rect, nearest, resized, world_at};
use crate::target::Corner;

verus! {

/// Whether a corner is on the left of a box.
pub open spec fn on_left(c: Corner) -> bool {
    c == Corner::TopLeft || c == Corner::BottomLeft
}

/// Whether a corner is at the top of a box.
pub open spec fn at_top(c: Corner) -> bool {
    c == Corner::TopLeft || c == Corner::TopRight
}

/// Whether a length has 16 bits with room to spare.
pub open spec fn is_length(n: int) -> bool {
    n <= u16::MAX
}

/// Whether a coordinate has 32 bits, with room for the largest box.
pub open spec fn is_place(n: int) -> bool {
    i32::MIN + u16::MAX <= n <= i32::MAX - u16::MAX
}

/// Dragging a corner of a box to a cell of the canvas keeps the opposite
/// corner where it is. Each of the two dragged edges goes to the pointer; an
/// edge that would come too close to the one across from it stops where the
/// box has its least size.
pub proof fn lemma_dragged_corner_follows_the_pointer(
    origin: WorldRect,
    corner: Corner,
    cx: u16,
    cy: u16,
    area: Rect,
    camera: (i32, i32),
)
    requires
        area.x <= cx < area.x + area.width <= u16::MAX,
        area.y <= cy < area.y + area.height <= u16::MAX,
        is_place(origin.x as int),
        is_place(origin.y as int),
        is_place(cx - area.x + camera.0),
        is_place(cy - area.y + camera.1),
        is_length(origin.x + origin.width - (cx - area.x + camera.0)),
        is_length(origin.y + origin.height - (cy - area.y + camera.1)),
        is_length(cx - area.x + camera.0 - origin.x),
        is_length(cy - area.y + camera.1 - origin.y),
    ensures
        ({
            let r = resized(origin, corner, cx, cy, area, camera);
            let px = cx - area.x + camera.0;
            let py = cy - area.y + camera.1;
            &&& r.width >= MIN_W && r.height >= MIN_H
            &&& on_left(corner) ==> {
                &&& r.x + r.width == origin.x + origin.width
                &&& r.width > MIN_W ==> r.x == px
                &&& px + MIN_W <= origin.x + origin.width ==> r.x == px
            }
            &&& !on_left(corner) ==> {
                &&& r.x == origin.x
                &&& r.width > MIN_W ==> r.x + r.width == px
                &&& origin.x + MIN_W <= px ==> r.x + r.width == px
            }
            &&& at_top(corner) ==> {
                &&& r.y + r.height == origin.y + origin.height
                &&& r.height > MIN_H ==> r.y == py
                &&& py + MIN_H <= origin.y + origin.height ==> r.y == py
            }
            &&& !at_top(corner) ==> {
                &&& r.y == origin.y
                &&& r.height > MIN_H ==> r.y + r.height == py
                &&& origin.y + MIN_H <= py ==> r.y + r.height == py
            }
        }),
{
}

/// A pointer that leaves the canvas drags a corner to the last cell before
/// the canvas ends.
pub proof fn lemma_dragged_corner_stays_on_the_canvas(
    origin: WorldRect,
    corner: Corner,
    cx: u16,
    cy: u16,
    area: Rect,
    camera: (i32, i32),
)
    requires
        area.width > 0,
        area.height > 0,
        area.fits(),
    ensures
        cx < area.x ==> resized(origin, corner, cx, cy, area, camera) == resized(
            origin,
            corner,
            area.x,
            cy,
            area,
            camera,
        ),
        cx >= area.x + area.width ==> resized(origin, corner, cx, cy, area, camera) == resized(
            origin,
            corner,
            (area.x + area.width - 1) as u16,
            cy,
            area,
            camera,
        ),
        cy < area.y ==> resized(origin, corner, cx, cy, area, camera) == resized(
            origin,
            corner,
            cx,
            area.y,
            area,
            camera,
        ),
        cy >= area.y + area.height ==> resized(origin, corner, cx, cy, area, camera) == resized(
            origin,
            corner,
            cx,
            (area.y + area.height - 1) as u16,
            area,
            camera,
        ),
{
}

/// A box drawn from one cell to another has both of them in it, begins at
/// the outermost of them, and ends at them too unless it would be smaller
/// than a box can be. It does not matter which of the two comes first.
pub proof fn lemma_drawn_box_spans_both_cells(start: (u16, u16), end: (u16, u16))
    requires
        start.0 < u16::MAX - MIN_W,
        start.1 < u16::MAX - MIN_H,
        end.0 < u16::MAX - MIN_W,
        end.1 < u16::MAX - MIN_H,
    ensures
        ({
            let r = drawn_rect(start, end);
            &&& r == drawn_rect(end, start)
            &&& r.has(start.0, start.1) && r.has(end.0, end.1)
            &&& r.x == start.0 || r.x == end.0
            &&& r.y == start.1 || r.y == end.1
            &&& r.width >= MIN_W && r.height >= MIN_H
            &&& r.width > MIN_W ==> r.x + r.width == start.0 + 1 || r.x + r.width == end.0 + 1
            &&& r.height > MIN_H ==> r.y + r.height == start.1 + 1 || r.y + r.height == end.1 + 1
        }),
{
}

/// What a request to place a box somewhere does to the board.
pub proof fn lemma_set_rect(a: AppView, id: Seq<char>, x: i32, y: i32, w: u16, h: u16)
    requires
        a.canvas.has_node(id),
        w > 0,
        h > 0,
    ensures
        ({
            let b = a.dispatched(RequestView::SetRect { id, x, y, w, h }).0;
            let i = find_node(a.canvas.nodes, id)->0;
            &&& 0 <= i < a.canvas.nodes.len()
            &&& a.canvas.nodes[i].id == id
            &&& a.canvas.node(id) == Some(a.canvas.nodes[i])
            &&& b.canvas == (CanvasView {
                nodes: a.canvas.nodes.update(
                    i,
                    NodeView {
                        rect: WorldRect { x, y, width: w, height: h },
                        ..a.canvas.nodes[i]
                    },
                ),
                ..a.canvas
            })
            &&& b.canvas.has_node(id)
            &&& b.canvas.node(id)->0.rect == (WorldRect { x, y, width: w, height: h })
            &&& b.camera == a.camera
            &&& b.status == a.status
        }),
{
    reveal(AppView::applied);
    let req = RequestView::SetRect { id, x, y, w, h };
    let b = a.dispatched(req).0;
    lemma_noted_first(a, req);
    lemma_find_node(a.canvas.nodes, id);
    let i = find_node(a.canvas.nodes, id)->0;
    lemma_find_node(b.canvas.nodes, id);
    assert(b.canvas.nodes[i].id == id);
    let j = find_node(b.canvas.nodes, id)->0;
    if j < i {
        assert(a.canvas.nodes[j].id == b.canvas.nodes[j].id);
    }
}

/// A box that is dropped keeps its size, and the cell that it was grabbed by
/// lies under the pointer, where that leaves the box on the canvas as a
/// whole. Nothing else on the board moves.
pub proof fn lemma_dropped_box_is_under_the_pointer(
    a: AppView,
    id: Seq<char>,
    x: u16,
    y: u16,
    area: Rect,
)
    requires
        a.canvas.has_node(id),
        a.canvas.node(id)->0.rect.width > 0,
        a.canvas.node(id)->0.rect.height > 0,
        area.fits(),
        area.x <= x - a.grab.0,
        x - a.grab.0 + a.canvas.node(id)->0.rect.width <= area.x + area.width,
        area.y <= y - a.grab.1,
        y - a.grab.1 + a.canvas.node(id)->0.rect.height <= area.y + area.height,
        is_place(x - a.grab.0 - area.x + a.camera.0),
        is_place(y - a.grab.1 - area.y + a.camera.1),
    ensures
        ({
            let b = a.dropped_box(id, x, y, area);
            let before = a.canvas.node(id)->0.rect;
            let after = b.canvas.node(id)->0.rect;
            &&& b.canvas.has_node(id)
            &&& after.width == before.width && after.height == before.height
            &&& after.x - b.camera.0 + area.x + a.grab.0 == x
            &&& after.y - b.camera.1 + area.y + a.grab.1 == y
            &&& b.canvas.edges == a.canvas.edges
            &&& b.canvas.nodes.len() == a.canvas.nodes.len()
            &&& forall|i: int|
                0 <= i < a.canvas.nodes.len() && (#[trigger] a.canvas.nodes[i]).id != id
                    ==> b.canvas.nodes[i] == a.canvas.nodes[i]
        }),
{
    let r = a.canvas.node(id)->0.rect;
    let (wx, wy) = world_at(x - a.grab.0, y - a.grab.1, area, a.camera);
    lemma_set_rect(a, id, wx, wy, r.width, r.height);
}

/// A box that is dropped is on the canvas as a whole, wherever the pointer
/// is, if it is small enough to be.
pub proof fn lemma_dropped_box_stays_on_the_canvas(
    a: AppView,
    id: Seq<char>,
    x: u16,
    y: u16,
    area: Rect,
)
    requires
        a.canvas.has_node(id),
        0 < a.canvas.node(id)->0.rect.width <= area.width,
        0 < a.canvas.node(id)->0.rect.height <= area.height,
        area.fits(),
        is_place(a.camera.0 as int),
        is_place(a.camera.1 as int),
    ensures
        ({
            let b = a.dropped_box(id, x, y, area);
            let after = b.canvas.node(id)->0.rect;
            &&& b.canvas.has_node(id)
            &&& 0 <= after.x - b.camera.0
            &&& after.x - b.camera.0 + after.width <= area.width
            &&& 0 <= after.y - b.camera.1
            &&& after.y - b.camera.1 + after.height <= area.height
        }),
{
    let r = a.canvas.node(id)->0.rect;
    let nx = clamped(
        max(x - a.grab.0, 0),
        area.x as int,
        max(max(area.x_end() - r.width, 0), area.x as int),
    );
    let ny = clamped(
        max(y - a.grab.1, 0),
        area.y as int,
        max(max(area.y_end() - r.height, 0), area.y as int),
    );
    let (wx, wy) = world_at(nx, ny, area, a.camera);
    lemma_set_rect(a, id, wx, wy, r.width, r.height);
}

/// A corner that is dropped gives the box the size that it was dragged to.
pub proof fn lemma_dropped_corner_resizes_the_box(
    a: AppView,
    id: Seq<char>,
    corner: Corner,
    origin: WorldRect,
    x: u16,
    y: u16,
    area: Rect,
)
    requires
        a.canvas.has_node(id),
        a.resize == Some((id, corner, origin)),
        resized(origin, corner, x, y, area, a.camera).width > 0,
        resized(origin, corner, x, y, area, a.camera).height > 0,
    ensures
        ({
            let b = a.dropped_corner(id, corner, x, y, area);
            &&& b.canvas.has_node(id)
            &&& b.canvas.node(id)->0.rect == resized(origin, corner, x, y, area, a.camera)
            &&& b.resize is None
            &&& b.canvas.edges == a.canvas.edges
            &&& forall|i: int|
                0 <= i < a.canvas.nodes.len() && (#[trigger] a.canvas.nodes[i]).id != id
                    ==> b.canvas.nodes[i] == a.canvas.nodes[i]
        }),
{
    let s = AppView { resize: None, ..a };
    let r = resized(origin, corner, x, y, area, a.camera);
    lemma_set_rect(s, id, r.x, r.y, r.width, r.height);
    reveal(AppView::applied);
    lemma_noted_first(
        s,
        RequestView::SetRect { id, x: r.x, y: r.y, w: r.width, h: r.height },
    );
}

/// How far a cell is from a box: as many steps, along rows and columns, as
/// it takes to the nearest cell of the box.
pub proof fn lemma_distance_is_to_the_nearest_cell(r: WorldRect, x: int, y: int)
    requires
        r.width > 0,
        r.height > 0,
    ensures
        forall|bx: int, by: int|
            r.x <= bx < r.x + r.width && r.y <= by < r.y + r.height ==> distance(r, x, y)
                <= #[trigger] steps(x, y, bx, by),
        exists|bx: int, by: int|
            r.x <= bx < r.x + r.width && r.y <= by < r.y + r.height && distance(r, x, y)
                == #[trigger] steps(x, y, bx, by),
        distance(r, x, y) == 0 <==> (r.x <= x < r.x + r.width && r.y <= y < r.y + r.height),
{
    let bx = if x < r.x {
        r.x as int
    } else if x >= r.x + r.width {
        r.x + r.width - 1
    } else {
        x
    };
    let by = if y < r.y {
        r.y as int
    } else if y >= r.y + r.height {
        r.y + r.height - 1
    } else {
        y
    };
    assert(distance(r, x, y) == steps(x, y, bx, by));
}

/// The steps from one cell to another along rows and columns.
pub open spec fn steps(x: int, y: int, bx: int, by: int) -> int {
    (if x < bx {
        bx - x
    } else {
        x - bx
    }) + (if y < by {
        by - y
    } else {
        y - by
    })
}

/// The nearest box is one of the board's, and no box is nearer. Of boxes
/// that are as near it is the first.
pub proof fn lemma_nearest_box_is_nearest(nodes: Seq<NodeView>, x: int, y: int)
    ensures
        nearest(nodes, x, y) is None <==> nodes.len() == 0,
        nodes.len() > 0 ==> exists|i: int|
            0 <= i < nodes.len() && nearest(nodes, x, y) == Some(#[trigger] nodes[i]) && (
            forall|j: int|
                0 <= j < nodes.len() ==> distance(nodes[i].rect, x, y) <= distance(
                    (#[trigger] nodes[j]).rect,
                    x,
                    y,
                ) && (j < i ==> distance(nodes[i].rect, x, y) < distance(nodes[j].rect, x, y))),
    decreases nodes.len(),
{
    if nodes.len() > 0 {
        let rest = nodes.drop_last();
        lemma_nearest_box_is_nearest(rest, x, y);
        if rest.len() > 0 {
            let i = choose|i: int|
                0 <= i < rest.len() && nearest(rest, x, y) == Some(#[trigger] rest[i]) && (
                forall|j: int|
                    0 <= j < rest.len() ==> distance(rest[i].rect, x, y) <= distance(
                        (#[trigger] rest[j]).rect,
                        x,
                        y,
                    ) && (j < i ==> distance(rest[i].rect, x, y) < distance(rest[j].rect, x, y)));
            assert(nodes[i] == rest[i]);
            let last = nodes.len() - 1;
            assert forall|j: int| 0 <= j < nodes.len() implies {
                let k = if distance(nodes[last].rect, x, y) < distance(rest[i].rect, x, y) {
                    last
                } else {
                    i
                };
                &&& distance(nodes[k].rect, x, y) <= distance((#[trigger] nodes[j]).rect, x, y)
                &&& j < k ==> distance(nodes[k].rect, x, y) < distance(nodes[j].rect, x, y)
            } by {
                if j < last {
                    assert(nodes[j] == rest[j]);
                }
            }
            if distance(nodes[last].rect, x, y) < distance(rest[i].rect, x, y) {
                assert(nearest(nodes, x, y) == Some(nodes[last]));
            } else {
                assert(nearest(nodes, x, y) == Some(nodes[i]));
            }
        } else {
            assert(nearest(nodes, x, y) == Some(nodes[0]));
        }
    }
}

} // verus!

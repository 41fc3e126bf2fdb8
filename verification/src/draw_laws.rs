//! What holds of a drawn frame: where heads, labels, boxes and swatches are,
//! and what can be grabbed where.

use vstd::prelude::*;

use crate::app::AppView;
use crate::geometry::Rect;
use crate::grid::{within_border, Grid};
use crate::minimap::box_middle;
use crate::model::{
    opt_color_text, CellAnchor, ColorView, EdgeEnd, EdgeView, NodeView, Side, WorldRect,
};
use crate::paint::{corner_cell, Look, PaintView};
use crate::pointer::last_at;
use crate::route::{
    attach, auto_sides, bent, facing, head_char, is_horizontal, on_screen, place_of, side_cell, side_span,
    Glyph, Landing, Point, ScreenRect,
};
use crate::route_laws::lemma_clipped;
use crate::sheet::{swatch_color, swatch_spot, SheetView, SWATCHES};
use crate::size_laws::lemma_columns_fill_the_box;
use crate::table::{col_center, row_center, row_size};
use crate::target::{Corner, HitView, SelectedView};
use crate::wires::{after_start, before_end, label_spot};

verus! {

/// Whether an arrowhead points from one point towards another that lies in
/// its row or column.
pub open spec fn points_along(c: char, from: Point, to: Point) -> bool {
    ||| c == '>' && from.1 == to.1 && from.0 < to.0
    ||| c == '<' && from.1 == to.1 && from.0 > to.0
    ||| c == 'v' && from.0 == to.0 && from.1 < to.1
    ||| c == '^' && from.0 == to.0 && from.1 > to.1
}

/// Whether a point is on the screen.
pub open spec fn is_shown(s: SheetView, p: Point) -> bool {
    s.screen.x <= p.0 < s.screen.x_end() && s.screen.y <= p.1 < s.screen.y_end()
}

/// Whether something drawn is one character at a point.
pub open spec fn is_glyph(p: PaintView, at: Point, ch: char) -> bool {
    p matches PaintView::Glyph { x, y, ch: c, .. } && x == at.0 && y == at.1 && c == ch
}

/// A connector's heads. Where it arrives with a head, one is drawn over its
/// last cell that points the way it arrives; where it leaves with a head, one
/// over its first cell that points back into the box it comes from. An end
/// without a head gets none.
pub proof fn lemma_heads_point_into_the_boxes(
    a: AppView,
    s: SheetView,
    e: EdgeView,
    w: Seq<Point>,
    look: Look,
)
    requires
        w.len() >= 2,
        w[0] != w[1],
        w[w.len() - 2] != w[w.len() - 1],
        w[0].0 == w[1].0 || w[0].1 == w[1].1,
        w[w.len() - 2].0 == w[w.len() - 1].0 || w[w.len() - 2].1 == w[w.len() - 1].1,
        e.from_anchor is None,
        e.to_anchor is None,
        is_shown(s, w[0]),
        is_shown(s, w.last()),
    ensures
        ({
            let b = a.ends_drawn(s, e, w, look);
            let n = s.out.len() as int;
            let heads = (if e.to_end == EdgeEnd::Arrow {
                1int
            } else {
                0
            }) + (if e.from_end == EdgeEnd::Arrow {
                1int
            } else {
                0
            });
            &&& b.hits == s.hits
            &&& b.out.len() == n + heads
            &&& b.out.take(n) == s.out
            &&& e.to_end == EdgeEnd::Arrow ==> exists|c: char|
                is_glyph(b.out[n], w.last(), c) && #[trigger] points_along(
                    c,
                    w[w.len() - 2],
                    w.last(),
                )
            &&& e.from_end == EdgeEnd::Arrow ==> exists|c: char|
                is_glyph(b.out.last(), w[0], c) && #[trigger] points_along(c, w[1], w[0])
        }),
{
    let n = w.len() as int;
    let (p, q) = (w[n - 1], w[n - 2]);
    assert(before_end(w, p, n - 1) == Some(q));
    assert(after_start(w, w[0], 1) == Some(w[1]));
    let b = a.ends_drawn(s, e, w, look);
    assert(b.out.take(s.out.len() as int) =~= s.out);
    if e.to_end == EdgeEnd::Arrow {
        let c = head_char(p.0 - q.0, p.1 - q.1);
        assert(points_along(c, q, p));
        assert(is_glyph(b.out[s.out.len() as int], p, c));
    }
    if e.from_end == EdgeEnd::Arrow {
        let c = head_char(w[0].0 - w[1].0, w[0].1 - w[1].1);
        assert(points_along(c, w[1], w[0]));
        assert(is_glyph(b.out.last(), w[0], c));
    }
}

/// A label stands at the middle of what shows of its connector: there are as
/// many cells of it before the label as behind, give or take one.
pub proof fn lemma_label_is_in_the_middle(g: Seq<Glyph>, w: Seq<Point>)
    requires
        g.len() > 0,
    ensures
        exists|i: int|
            0 <= i < g.len() && label_spot(g, w) == ((#[trigger] g[i]).0, g[i].1) && i <= g.len() - i
                <= i + 1,
{
    let i = g.len() as int / 2;
    assert(label_spot(g, w) == (g[i].0, g[i].1));
}

/// Every cell of a connector can be hit, and means that connector.
pub proof fn lemma_connector_can_be_hit(
    s: SheetView,
    g: Seq<Glyph>,
    id: Seq<char>,
    look: Look,
    n: int,
    k: int,
)
    requires
        0 <= k < n <= g.len(),
        0 <= g[k].0 < u16::MAX,
        0 <= g[k].1 < u16::MAX,
    ensures
        ({
            let b = s.wire(g, id, look, n);
            let (r, hit) = b.edge_hits[s.edge_hits.len() + k];
            &&& b.edge_hits.len() == s.edge_hits.len() + n
            &&& hit == id
            &&& r.has(g[k].0 as u16, g[k].1 as u16) && r.width == 1 && r.height == 1
        }),
    decreases n,
{
    lemma_wire_hits(s, g, id, look, n - 1);
    if k < n - 1 {
        lemma_connector_can_be_hit(s, g, id, look, n - 1, k);
    }
}

proof fn lemma_wire_hits(s: SheetView, g: Seq<Glyph>, id: Seq<char>, look: Look, n: int)
    requires
        0 <= n <= g.len(),
    ensures
        s.wire(g, id, look, n).edge_hits.len() == s.edge_hits.len() + n,
    decreases n,
{
    if n > 0 {
        lemma_wire_hits(s, g, id, look, n - 1);
    }
}

/// A corner's cell is the cell of the box at that corner.
pub proof fn lemma_corner_cells_are_the_corners(r: Rect, x: u16, y: u16)
    requires
        r.fits(),
        r.width > 0,
        r.height > 0,
    ensures
        corner_cell(r, Corner::TopLeft).has(x, y) <==> x == r.x && y == r.y,
        corner_cell(r, Corner::TopRight).has(x, y) <==> x == r.x + r.width - 1 && y == r.y,
        corner_cell(r, Corner::BottomLeft).has(x, y) <==> x == r.x && y == r.y + r.height - 1,
        corner_cell(r, Corner::BottomRight).has(x, y) <==> x == r.x + r.width - 1 && y == r.y
            + r.height - 1,
{
}

proof fn lemma_last_of_push<K>(spots: Seq<(Rect, K)>, r: Rect, k: K, x: u16, y: u16)
    ensures
        last_at(spots.push((r, k)), x, y) == if r.has(x, y) {
            Some((r, k))
        } else {
            last_at(spots, x, y)
        },
{
    assert(spots.push((r, k)).drop_last() =~= spots);
}

/// A box that shows a text and is on the canvas as a whole covers what was
/// drawn before it: its corners resize it, each from its own side, any other
/// cell of it moves it, and beside it whatever was there is hit.
pub proof fn lemma_box_can_be_grabbed(
    a: AppView,
    s: SheetView,
    n: NodeView,
    area: Rect,
    at: Landing,
    x: u16,
    y: u16,
)
    requires
        area.fits(),
        a.hidden() != Some(n.id),
        a.grid_shown(n) is None,
        n.rect.width >= 2,
        n.rect.height >= 2,
        on_screen(n.rect, a.camera, area).within(area),
    ensures
        ({
            let b = a.node_drawn(s, n, area, at);
            let r = on_screen(n.rect, a.camera, area);
            let (left, right) = (x == r.x, x == r.x + r.width - 1);
            let (top, bottom) = (y == r.y, y == r.y + r.height - 1);
            match last_at(b.hits, x, y) {
                Some((_, hit)) if r.has((x as int, y as int)) => hit == if left && top {
                    HitView::Resize(n.id, Corner::TopLeft)
                } else if right && top {
                    HitView::Resize(n.id, Corner::TopRight)
                } else if left && bottom {
                    HitView::Resize(n.id, Corner::BottomLeft)
                } else if right && bottom {
                    HitView::Resize(n.id, Corner::BottomRight)
                } else {
                    HitView::Move(n.id)
                },
                found => !r.has((x as int, y as int)) && found == last_at(s.hits, x, y),
            }
        }),
{
    let r = on_screen(n.rect, a.camera, area);
    lemma_clipped(r, area);
    let place = r.clipped(area)->0;
    assert(place_of(place) == r);
    lemma_corner_cells_are_the_corners(place, x, y);
    let h0 = s.hits.push((place, HitView::Move(n.id)));
    let c1 = (corner_cell(place, Corner::TopLeft), HitView::Resize(n.id, Corner::TopLeft));
    let c2 = (corner_cell(place, Corner::TopRight), HitView::Resize(n.id, Corner::TopRight));
    let c3 = (corner_cell(place, Corner::BottomLeft), HitView::Resize(n.id, Corner::BottomLeft));
    let c4 = (corner_cell(place, Corner::BottomRight), HitView::Resize(n.id, Corner::BottomRight));
    lemma_last_of_push(s.hits, place, HitView::Move(n.id), x, y);
    lemma_last_of_push(h0, c1.0, c1.1, x, y);
    lemma_last_of_push(h0.push(c1), c2.0, c2.1, x, y);
    lemma_last_of_push(h0.push(c1).push(c2), c3.0, c3.1, x, y);
    lemma_last_of_push(h0.push(c1).push(c2).push(c3), c4.0, c4.1, x, y);
    let b = a.node_drawn(s, n, area, at);
    assert(b.hits =~= h0.push(c1).push(c2).push(c3).push(c4));
}

/// A box that shows a text is drawn as a border around its place and the text
/// inside that border, the border rounded just for a rounded box.
pub proof fn lemma_box_shows_its_text(
    a: AppView,
    s: SheetView,
    n: NodeView,
    place: Rect,
    at: Landing,
)
    requires
        a.grid_shown(n) is None,
        place.fits(),
        place.width >= 2,
        place.height >= 2,
    ensures
        ({
            let b = a.box_drawn(s, n, place, at);
            let k = s.out.len() as int;
            &&& b.out.len() >= k + 1
            &&& b.out.take(k) == s.out
            &&& b.out[k] matches PaintView::Frame { area, rounded, .. } && area == place && (
            rounded <==> n.shape is Rounded)
            &&& a.text_shown(n).len() == 0 ==> b.out.len() == k + 1
            &&& a.text_shown(n).len() > 0 ==> b.out.len() == k + 2 && (
            b.out[k + 1] matches PaintView::Wrapped { area, text, .. } && text == a.text_shown(n)
                && area.x == place.x + 1 && area.y == place.y + 1 && area.x + area.width + 1
                == place.x + place.width && area.y + area.height + 1 == place.y + place.height)
        }),
{
    let b = a.box_drawn(s, n, place, at);
    assert(b.out.take(s.out.len() as int) =~= s.out);
}

/// The swatches of a color picker: one that clears the color, then the six
/// presets in order, in one row; the hex colors in the row below. No two
/// share a cell.
pub proof fn lemma_swatches_stand_apart(x: u16, y: u16, j: int, k: int)
    requires
        0 <= j < k < SWATCHES,
    ensures
        swatch_color(0) is None,
        1 <= k <= 6 ==> swatch_color(k) == Some(ColorView::Preset(k as u8)),
        k > 6 ==> swatch_color(k) is Some && swatch_color(k)->0 is Hex,
        swatch_spot(x, y, 0) == (x as int, y as int),
        ({
            let (a, b) = (swatch_spot(x, y, j), swatch_spot(x, y, k));
            a.1 < b.1 || (a.1 == b.1 && a.0 + 2 <= b.0)
        }),
        k <= 6 ==> swatch_spot(x, y, k).1 == y,
        k > 6 ==> swatch_spot(x, y, k).1 == y + 1,
{
}

/// A swatch that is shown applies its own color to what the picker is for.
pub proof fn lemma_swatch_applies_its_color(
    s: SheetView,
    target: SelectedView,
    x: u16,
    y: u16,
    area: Rect,
    k: int,
)
    requires
        0 <= k < SWATCHES,
        area.fits(),
        area.x <= swatch_spot(x, y, k).0,
        swatch_spot(x, y, k).0 + 2 <= area.x + area.width,
        area.y <= swatch_spot(x, y, k).1 < area.y + area.height,
    ensures
        ({
            let b = s.swatch(target, x, y, area, k);
            let (r, hit) = b.hits.last();
            &&& b.hits.len() == s.hits.len() + 1
            &&& r.x == swatch_spot(x, y, k).0 && r.y == swatch_spot(x, y, k).1
            &&& r.width == 2 && r.height == 1
            &&& hit == HitView::ColorSwatch(
                target,
                opt_color_text(swatch_color(k)),
            )
        }),
{
}

/// A box's dot on the map stands for a cell of the box, as far from its left
/// as from its right and from its top as from its bottom, give or take one.
pub proof fn lemma_dot_is_in_the_middle(r: WorldRect)
    requires
        r.width > 0,
        r.height > 0,
    ensures
        ({
            let (x, y) = box_middle(r);
            &&& r.x <= x < r.x + r.width && r.y <= y < r.y + r.height
            &&& x - r.x <= r.x + r.width - x <= x - r.x + 1
            &&& y - r.y <= r.y + r.height - y <= y - r.y + 1
        }),
{
}

/// What is inside a border is one cell in on each side.
pub proof fn lemma_inside_of_a_border(r: Rect)
    requires
        r.fits(),
        r.width >= 2,
        r.height >= 2,
    ensures
        ({
            let i = within_border(r);
            &&& i.x == r.x + 1 && i.y == r.y + 1
            &&& i.x + i.width == r.x + r.width - 1 && i.y + i.height == r.y + r.height - 1
        }),
{
}

/// Sides that face each other. A connector that has to leave at the top or
/// the bottom, or at the left or the right, takes the one of the two on which
/// the other box lies.
pub proof fn lemma_facing_side_is_towards_the_other(this: ScreenRect, other: ScreenRect)
    requires
        this.width > 0 && this.height > 0 && other.width > 0 && other.height > 0,
    ensures
        this.y_end() <= other.y ==> facing(this, other, true) == Side::Bottom && facing(
            other,
            this,
            true,
        ) == Side::Top,
        this.x_end() <= other.x ==> facing(this, other, false) == Side::Right && facing(
            other,
            this,
            false,
        ) == Side::Left,
        facing(this, other, true) == Side::Top || facing(this, other, true) == Side::Bottom,
        facing(this, other, false) == Side::Left || facing(this, other, false) == Side::Right,
{
}

/// The sides that a connector takes where none are given face each other, for
/// boxes one beside or above the other.
pub proof fn lemma_automatic_sides_face(from: ScreenRect, to: ScreenRect)
    requires
        from.width > 0 && from.height > 0 && to.width > 0 && to.height > 0,
    ensures
        from.x_end() <= to.x && from.y < to.y_end() && to.y < from.y_end() ==> auto_sides(from, to)
            == (Side::Right, Side::Left),
        to.x_end() <= from.x && from.y < to.y_end() && to.y < from.y_end() ==> auto_sides(from, to)
            == (Side::Left, Side::Right),
        from.y_end() <= to.y && from.x < to.x_end() && to.x < from.x_end() ==> auto_sides(from, to)
            == (Side::Bottom, Side::Top),
        to.y_end() <= from.y && from.x < to.x_end() && to.x < from.x_end() ==> auto_sides(from, to)
            == (Side::Top, Side::Bottom),
        from.x_end() <= to.x && from.y_end() <= to.y ==> auto_sides(from, to) == (
            Side::Right,
            Side::Top,
        ),
        from.x_end() <= to.x && to.y_end() <= from.y ==> auto_sides(from, to) == (
            Side::Right,
            Side::Bottom,
        ),
        to.x_end() <= from.x && from.y_end() <= to.y ==> auto_sides(from, to) == (
            Side::Left,
            Side::Top,
        ),
        to.x_end() <= from.x && to.y_end() <= from.y ==> auto_sides(from, to) == (
            Side::Left,
            Side::Bottom,
        ),
{
}

/// A connector between two sides of the same kind turns halfway between them,
/// and leaves and arrives straight.
pub proof fn lemma_bend_is_halfway(
    from: ScreenRect,
    to: ScreenRect,
    e: Point,
    n: Point,
    from_side: Side,
    to_side: Side,
)
    requires
        e.0 + n.0 >= 0,
        e.1 + n.1 >= 0,
    ensures
        ({
            let w = bent(from, to, e, n, from_side, to_side);
            &&& w[0] == e && w.last() == n
            &&& is_horizontal(from_side) && is_horizontal(to_side) ==> {
                &&& w.len() == 4
                &&& w[1].1 == e.1 && w[2].1 == n.1 && w[1].0 == w[2].0
                &&& 2 * w[1].0 <= e.0 + n.0 <= 2 * w[1].0 + 1
            }
            &&& !is_horizontal(from_side) && !is_horizontal(to_side) ==> {
                &&& w.len() == 4
                &&& w[1].0 == e.0 && w[2].0 == n.0 && w[1].1 == w[2].1
                &&& 2 * w[1].1 <= e.1 + n.1 <= 2 * w[1].1 + 1
            }
        }),
{
}

/// Between a horizontal and a vertical side a connector turns once, outside
/// the boxes where it can: it leaves straight unless that turn would lie in a
/// box.
pub proof fn lemma_one_bend_avoids_the_boxes(
    from: ScreenRect,
    to: ScreenRect,
    e: Point,
    n: Point,
    from_side: Side,
    to_side: Side,
)
    requires
        is_horizontal(from_side) != is_horizontal(to_side),
    ensures
        ({
            let w = bent(from, to, e, n, from_side, to_side);
            let straight = if is_horizontal(from_side) {
                (n.0, e.1)
            } else {
                (e.0, n.1)
            };
            &&& w.len() == 3 && w[0] == e && w[2] == n
            &&& w[1] == (n.0, e.1) || w[1] == (e.0, n.1)
            &&& !from.has(straight) && !to.has(straight) ==> w[1] == straight
            &&& from.has(straight) || to.has(straight) ==> w[1] != straight || e == n || e.0 == n.0
                || e.1 == n.1
        }),
{
}

/// The rows of a grid stand one below the other, each as high as it is, with
/// one line under the header where there are more. A cell can be hit over the
/// whole height of its row and the whole width of its column.
pub proof fn lemma_rows_stand_below_each_other(g: Grid, s: SheetView, k: int)
    requires
        0 <= k < g.cells.len(),
        g.rect.fits(),
        g.rect.width >= 2,
        g.rect.height >= 2,
        g.rows_drawn(s, k).y + row_size(g.row(k)) + 1 < g.rect.y + g.rect.height - 1,
    ensures
        g.rows_drawn(s, 0).y == g.rect.y + 1,
        g.rows_drawn(s, k + 1).y == g.rows_drawn(s, k).y + row_size(g.row(k)) + if k == 0
            && g.cells.len() > 1 {
            1int
        } else {
            0
        },
{
}

/// The cells of a row of a grid can be hit: each column of it that is in the
/// box, over its width and the spaces around it.
pub proof fn lemma_cells_can_be_hit(
    g: Grid,
    s: SheetView,
    r: int,
    y: u16,
    height: u16,
    k: int,
)
    requires
        0 < k <= g.cols() <= usize::MAX,
        0 <= r <= usize::MAX,
        g.rect.fits(),
        g.rect.width >= 2,
        g.rect.height >= 2,
        0 < height <= u16::MAX - y,
        g.col_x(k - 1) + g.width(k - 1) + 2 <= g.rect.x + g.rect.width - 1,
    ensures
        ({
            let b = g.targets(s, r, y, height, k);
            let (area, hit) = b.hits.last();
            &&& b.hits.len() > 0
            &&& hit == HitView::TableCell(g.id, r as usize, (k - 1) as usize)
            &&& area.x == g.col_x(k - 1) && area.width == g.width(k - 1) + 2
            &&& area.y == y && area.height == height
        }),
{
    lemma_columns_fill_the_box(g, k - 1);
}

/// The cells at which a connector can touch a side of a box run along that
/// side from one end of it to the other, and none further.
pub proof fn lemma_side_runs_along_the_box(r: ScreenRect, side: Side, off: u16)
    requires
        r.width > 0,
        r.height > 0,
    ensures
        off <= side_span(r, side) <==> {
            let p = side_cell(r, side, off);
            match side {
                Side::Left => p.0 == r.x - 1 && r.y <= p.1 < r.y_end(),
                Side::Right => p.0 == r.x_end() && r.y <= p.1 < r.y_end(),
                Side::Top => p.1 == r.y - 1 && r.x <= p.0 < r.x_end(),
                Side::Bottom => p.1 == r.y_end() && r.x <= p.0 < r.x_end(),
            }
        },
{
}

/// A grid can be grabbed at each of its columns, above and below the box, and
/// what is grabbed there is that column.
pub proof fn lemma_columns_can_be_grabbed(g: Grid, s: SheetView, at: Landing, k: int)
    requires
        0 < k <= usize::MAX,
        col_center(g.cells, k - 1, g.rect.width) is Some,
    ensures
        ({
            let b = g.col_dots(s, at, k).hits;
            let n = b.len() as int;
            let dot = HitView::AnchorDot(
                g.id,
                CellAnchor { row: None, col: Some((k - 1) as usize) },
            );
            let part = col_center(g.cells, k - 1, g.rect.width)->0;
            let top = attach(place_of(g.rect), Side::Top, part, at);
            let bottom = attach(place_of(g.rect), Side::Bottom, part, at);
            &&& n >= 2
            &&& b[n - 2].1 == dot && b[n - 1].1 == dot
            &&& 0 < top.0 < 60000 && 0 <= top.1 < 60000 ==> b[n - 2].0.has(
                top.0 as u16,
                top.1 as u16,
            )
            &&& 0 < bottom.0 < 60000 && 0 < bottom.1 < 60000 ==> b[n - 1].0.has(
                bottom.0 as u16,
                bottom.1 as u16,
            )
        }),
{
}

/// A grid can be grabbed at each of its rows, left and right of the box, and
/// what is grabbed there is that row.
pub proof fn lemma_rows_can_be_grabbed(g: Grid, s: SheetView, at: Landing, k: int)
    requires
        0 < k <= usize::MAX,
        row_center(g.cells, k - 1, g.rect.height) is Some,
    ensures
        ({
            let b = g.row_dots(s, at, k).hits;
            let n = b.len() as int;
            let dot = HitView::AnchorDot(
                g.id,
                CellAnchor { row: Some((k - 1) as usize), col: None },
            );
            let part = row_center(g.cells, k - 1, g.rect.height)->0;
            let left = attach(place_of(g.rect), Side::Left, part, at);
            let right = attach(place_of(g.rect), Side::Right, part, at);
            &&& n >= 2
            &&& b[n - 2].1 == dot && b[n - 1].1 == dot
            &&& 0 <= left.0 < 60000 && 0 < left.1 < 60000 ==> b[n - 2].0.has(
                left.0 as u16,
                left.1 as u16,
            )
            &&& 0 < right.0 < 60000 && 0 < right.1 < 60000 ==> b[n - 1].0.has(
                right.0 as u16,
                right.1 as u16,
            )
        }),
{
}

} // verus!

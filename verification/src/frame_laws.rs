//! What holds of a whole frame: its colors, its buttons, where the handles
//! and labels of connectors are, and what covers what.

use vstd::prelude::*;

use crate::app::AppView;
use crate::geometry::{rect, Rect};
use crate::grid::Grid;
use crate::links::{anchor_part, grid_of, Link, Scene};
use crate::minimap::{box_middle, MapLayout};
use crate::model::{CellAnchor, ColorView, EdgeEnd, EdgeView, NodeView, Side};
use crate::paint::{
    hex_byte, hex_digit, hex_ink, ink_of, inked, inked_under, line_look, opt_ink, shown_ink, Ink,
    Look, PaintView,
};
use crate::pointer::{drag_cell, last_at};
use crate::render::{hint_text, menu_label, menu_op, mode_text, BUTTONS};
use crate::route::{
    drawn_path, is_horizontal, on_screen, path, Glyph, Landing, Point, ScreenRect,
};
use crate::sheet::SheetView;
use crate::table::{col_center, row_center, Cells};
use crate::target::{Endpoint, HitView, SelectedView, TableOp};
use crate::wires::{before_end, beside, wrapped};

verus! {

/// The sixteen hex digits in order.
pub open spec fn hex_digits() -> Seq<char> {
    seq!['0', '1', '2', '3', '4', '5', '6', '7', '8', '9', 'a', 'b', 'c', 'd', 'e', 'f']
}

/// The text of a color: a mark, and two hex digits for each of its parts, the
/// higher first.
pub open spec fn hex_text(r: u8, g: u8, b: u8) -> Seq<char> {
    let d = hex_digits();
    seq![
        '#',
        d[r as int / 16],
        d[r as int % 16],
        d[g as int / 16],
        d[g as int % 16],
        d[b as int / 16],
        d[b as int % 16],
    ]
}

/// Every color that a terminal can show has a text, and its text shows in
/// just that color.
pub proof fn lemma_hex_text_names_its_color(r: u8, g: u8, b: u8)
    ensures
        hex_ink(hex_text(r, g, b)) == Some(Ink::Rgb(r, g, b)),
        ink_of(ColorView::Hex(hex_text(r, g, b))) == Ink::Rgb(r, g, b),
{
    lemma_hex_pair(r);
    lemma_hex_pair(g);
    lemma_hex_pair(b);
}

proof fn lemma_hex_pair(n: u8)
    ensures
        hex_byte(hex_digits()[n as int / 16], hex_digits()[n as int % 16]) == Some(
            n,
        ),
{
    lemma_hex_digit(n as int / 16);
    lemma_hex_digit(n as int % 16);
}

proof fn lemma_hex_digit(n: int)
    requires
        0 <= n < 16,
    ensures
        hex_digit(hex_digits()[n]) == Some(n as u8),
        hex_digits()[n] != '+',
{
}

/// The six presets show in six colors.
pub proof fn lemma_presets_differ(j: u8, k: u8)
    requires
        1 <= j < k <= 6,
    ensures
        ink_of(ColorView::Preset(j)) != ink_of(ColorView::Preset(k)),
        !(ink_of(ColorView::Preset(j)) is Reset),
        !(ink_of(ColorView::Preset(k)) is Reset),
{
}

/// What is selected is bold and always has a color, its own where it has
/// one; what is not selected is not bold.
pub proof fn lemma_selected_stands_out(own: Option<Ink>, preview: Option<Option<Ink>>)
    ensures
        line_look(own, true).bold,
        line_look(own, true).fg is Some,
        own is Some ==> line_look(own, true).fg == own,
        !line_look(own, false).bold,
        line_look(own, false).fg == own,
        preview is Some ==> shown_ink(own, preview) == preview->0,
        preview is None ==> shown_ink(own, preview) == own,
{
}

/// The cell that is being typed into is the one cell of a grid that is
/// reversed; the cells of the header are bold.
pub proof fn lemma_cursor_shows(g: Grid, r: int, c: int)
    requires
        !g.look.reversed,
        !g.look.bold,
        r >= 0,
        c >= 0,
    ensures
        g.cell_look(r, c).reversed <==> (g.cursor matches Some((row, col)) && row == r && col == c),
        g.cell_look(r, c).bold <==> r == 0,
        g.cell_look(r, c).fg == g.look.fg,
{
}

/// A button says what it does: a plus where it adds and a minus where it
/// takes out, and whether that is a column or a row.
pub proof fn lemma_buttons_say_what_they_do(k: int)
    requires
        0 <= k < BUTTONS,
    ensures
        menu_label(k).len() == 4,
        menu_label(k)[0] == '+' <==> menu_op(k) == TableOp::AddCol || menu_op(k) == TableOp::AddRow,
        menu_label(k)[0] == '-' <==> menu_op(k) == TableOp::DelCol || menu_op(k) == TableOp::DelRow,
        menu_label(k)[1] == 'c' <==> menu_op(k) == TableOp::AddCol || menu_op(k) == TableOp::DelCol,
        menu_label(k)[1] == 'r' <==> menu_op(k) == TableOp::AddRow || menu_op(k) == TableOp::DelRow,
{
    reveal_strlit("+col");
    reveal_strlit("-col");
    reveal_strlit("+row");
    reveal_strlit("-row");
}

/// The buttons of a table stand side by side in the row below its box, a
/// cell apart, each with what it does behind it.
pub proof fn lemma_buttons_are_below_the_box(
    s: SheetView,
    id: Seq<char>,
    place: Rect,
    area: Rect,
    n: int,
    k: int,
)
    requires
        area.fits(),
        place.fits(),
        0 <= k < n <= BUTTONS,
        area.x <= place.x,
        place.x + 20 <= area.x + area.width,
        area.y <= place.y + place.height < area.y + area.height,
    ensures
        ({
            let b = s.menu(id, place, area, n);
            let (r, hit) = b.hits[s.hits.len() + k];
            &&& b.hits.len() == s.hits.len() + n
            &&& r.y == place.y + place.height && r.height == 1
            &&& r.x == place.x + 5 * k && r.width == 4
            &&& hit == HitView::TableMenu(id, menu_op(k))
        }),
    decreases n,
{
    if n > 1 {
        lemma_buttons_are_below_the_box(
            s,
            id,
            place,
            area,
            n - 1,
            if k < n - 1 {
                k
            } else {
                0
            },
        );
    }
    let before = s.menu(id, place, area, n - 1);
    if n == 1 {
        assert(before == s);
    }
    assert(before.hits.len() == s.hits.len() + n - 1);
}

/// A selected box has a button in the column right of it, in its first row,
/// that opens its colors.
pub proof fn lemma_color_button_is_beside_the_box(
    a: AppView,
    s: SheetView,
    area: Rect,
    id: Seq<char>,
    n: NodeView,
)
    requires
        area.fits(),
        a.selected == Some(SelectedView::Node(id)),
        a.canvas.node(id) == Some(n),
        a.color_picker is None,
        area.x <= on_screen(n.rect, a.camera, area).x_end() < area.x + area.width,
        area.y <= on_screen(n.rect, a.camera, area).y < area.y + area.height,
    ensures
        ({
            let b = a.button_drawn(s, area);
            let r = on_screen(n.rect, a.camera, area);
            let (at, hit) = b.hits.last();
            &&& b.hits.len() == s.hits.len() + 1
            &&& hit == HitView::ColorMenu(SelectedView::Node(id))
            &&& at.x == r.x + r.width && at.y == r.y && at.width == 1 && at.height == 1
        }),
{
    reveal(wrapped);
    let r = on_screen(n.rect, a.camera, area);
    vstd::arithmetic::div_mod::lemma_small_mod(r.x_end() as nat, 65536);
    vstd::arithmetic::div_mod::lemma_small_mod(r.y as nat, 65536);
}

/// A connector can be taken by its ends: the cell that it starts in takes the
/// end that it comes from, the cell that it ends in the one that it goes to.
pub proof fn lemma_ends_can_be_taken(
    a: AppView,
    s: SheetView,
    e: EdgeView,
    l: Link,
    area: Rect,
    at: Landing,
)
    requires
        a.selected is None,
        ({
            let w = path(l.from, l.to, l.from_part, l.to_part, l.sides, at);
            &&& 0 <= w[0].0 < u16::MAX && 0 <= w[0].1 < u16::MAX
            &&& 0 <= w.last().0 < u16::MAX && 0 <= w.last().1 < u16::MAX
        }),
    ensures
        ({
            let w = path(l.from, l.to, l.from_part, l.to_part, l.sides, at);
            let b = a.wire_drawn(s, e, l, area, at);
            let n = s.hits.len() as int;
            &&& b.hits.len() == n + 2
            &&& b.hits[n].1 == HitView::Reattach(e.id, Endpoint::From)
            &&& b.hits[n].0.has(w[0].0 as u16, w[0].1 as u16)
            &&& b.hits[n].0.width == 1 && b.hits[n].0.height == 1
            &&& b.hits[n + 1].1 == HitView::Reattach(e.id, Endpoint::To)
            &&& b.hits[n + 1].0.has(w.last().0 as u16, w.last().1 as u16)
            &&& b.hits[n + 1].0.width == 1 && b.hits[n + 1].0.height == 1
        }),
{
    let w = path(l.from, l.to, l.from_part, l.to_part, l.sides, at);
    let g = drawn_path(w).filter(beside(l.from, l.to));
    let look = line_look(
        shown_ink(opt_ink(e.color), a.preview(SelectedView::Edge(e.id))),
        false,
    );
    lemma_wire_adds_no_target(s, g, e.id, look, g.len() as int);
    lemma_ends_add_no_target(
        a,
        s.wire(g, e.id, look, g.len() as int),
        e,
        w,
        look,
    );
}

proof fn lemma_wire_adds_no_target(
    s: SheetView,
    g: Seq<Glyph>,
    id: Seq<char>,
    look: Look,
    n: int,
)
    ensures
        s.wire(g, id, look, n).hits == s.hits,
    decreases n,
{
    if n > 0 {
        lemma_wire_adds_no_target(s, g, id, look, n - 1);
    }
}

proof fn lemma_ends_add_no_target(
    a: AppView,
    s: SheetView,
    e: EdgeView,
    w: Seq<Point>,
    look: Look,
)
    ensures
        a.ends_drawn(s, e, w, look).hits == s.hits,
{
}

/// A connector's label shows as it is at the place for it, unless it is being
/// typed.
pub proof fn lemma_label_shows(
    a: AppView,
    s: SheetView,
    e: EdgeView,
    m: Point,
    look: Look,
    area: Rect,
    text: Seq<char>,
)
    requires
        a.selected is None,
        a.mode is Normal,
        e.label == Some(text),
        0 < text.len() <= 1000,
        0 <= m.0 < 60000,
        0 <= m.1 < 60000,
    ensures
        a.label_drawn(s, e, m, look, area).out.len() == s.out.len() + 1,
        a.label_drawn(s, e, m, look, area).out.last() matches PaintView::Text {
            area: at,
            text: shown,
            ..
        } && shown == text && at.x == m.0 && at.y == m.1 && at.width == text.len() && at.height
            == 1,
{
    reveal(wrapped);
    vstd::arithmetic::div_mod::lemma_small_mod(m.0 as nat, 65536);
    vstd::arithmetic::div_mod::lemma_small_mod(m.1 as nat, 65536);
}

/// A box that is being moved or resized is not drawn where it was.
pub proof fn lemma_dragged_box_is_not_drawn(
    a: AppView,
    s: SheetView,
    n: NodeView,
    area: Rect,
    at: Landing,
)
    requires
        a.hidden() == Some(n.id),
    ensures
        a.node_drawn(s, n, area, at) == s,
{
}

/// A connector that is being dragged is never aimed at the box that it comes
/// from; it is aimed at the box whose cell is on top under the pointer.
pub proof fn lemma_aim_is_another_box(s: SheetView, from: Seq<char>, x: u16, y: u16)
    ensures
        AppView::aim(s, from, x, y) matches Some((id, anchor)) ==> {
            &&& id != from
            &&& last_at(s.hits, x, y) is Some
            &&& match (last_at(s.hits, x, y)->0).1 {
                HitView::TableCell(b, row, col) => b == id && anchor == Some(
                    CellAnchor { row: Some(row), col: Some(col) },
                ),
                HitView::AnchorDot(b, dot) => b == id && anchor == Some(dot),
                HitView::Move(b) => b == id && anchor is None,
                HitView::Resize(b, _) => b == id && anchor is None,
                _ => true,
            }
        },
        last_at(s.hits, x, y) matches Some((_, HitView::Move(b))) ==> (AppView::aim(
            s,
            from,
            x,
            y,
        ) is Some <==> b != from),
        last_at(s.hits, x, y) is None ==> AppView::aim(s, from, x, y) is None,
{
}

/// The end of a connector that stays where it is while the other one is
/// dragged is the one at the box that the connector still has.
pub proof fn lemma_other_end_stays(
    a: AppView,
    s: SheetView,
    area: Rect,
    at: Landing,
    id: Seq<char>,
    e: EdgeView,
    cell: (u16, u16),
    n: NodeView,
)
    requires
        a.canvas.edge(id) == Some(e),
        drag_cell(a.drag) == Some(cell),
    ensures
        a.loose() == Some((id, Endpoint::From)) && a.canvas.node(e.to) == Some(n)
            ==> a.reattaching_drawn(s, area, at) == a.pull_drawn(
            s,
            n,
            None,
            cell,
            None,
            area,
            at,
        ),
        a.loose() == Some((id, Endpoint::To)) && a.canvas.node(e.from) == Some(n)
            ==> a.reattaching_drawn(s, area, at) == a.pull_drawn(
            s,
            n,
            None,
            cell,
            None,
            area,
            at,
        ),
{
}

/// The map covers what it is drawn over: a cell of it hits the map, any other
/// cell what it hit before.
pub proof fn lemma_map_covers(a: AppView, s: SheetView, map: MapLayout, x: u16, y: u16)
    ensures
        map.area.has(x, y) ==> (last_at(a.map_drawn(s, map).hits, x, y) matches Some((_, h))
            && h is Minimap),
        !map.area.has(x, y) ==> last_at(a.map_drawn(s, map).hits, x, y) == last_at(s.hits, x, y),
{
    lemma_map_hits(a, s, map);
}

proof fn lemma_dots_add_no_target(a: AppView, s: SheetView, dots: Seq<(u16, u16)>, k: int)
    ensures
        a.dots_drawn(s, dots, k).hits == s.hits,
        a.dots_drawn(s, dots, k).screen == s.screen,
    decreases k,
{
    if k > 0 {
        lemma_dots_add_no_target(a, s, dots, k - 1);
    }
}

proof fn lemma_map_hits(a: AppView, s: SheetView, map: MapLayout)
    ensures
        a.map_drawn(s, map).hits.drop_last() == s.hits,
        a.map_drawn(s, map).hits.last() == (map.area, HitView::Minimap),
        a.map_drawn(s, map).hits.len() == s.hits.len() + 1,
{
    let (x0, y0) = map.first;
    let (x1, y1) = map.end;
    let s1 = s.with(PaintView::Blank { area: map.area }).with(
        PaintView::Panel {
            area: map.area,
            title: "map"@,
            look: inked(Ink::DarkGray),
        },
    ).with(
        PaintView::Fill {
            area: rect(x0, y0, (x1 - x0 + 1) as u16, (y1 - y0 + 1) as u16),
            look: inked_under(Ink::Rgb(60, 60, 70)),
        },
    );
    lemma_dots_add_no_target(a, s1, map.dots@, a.canvas.nodes.len() as int);
    assert(a.map_drawn(s, map).hits =~= s.hits.push((map.area, HitView::Minimap)));
    assert(s.hits.push((map.area, HitView::Minimap)).drop_last() =~= s.hits);
}

/// Every box has its dot on the map, at its own cell and in its own color.
pub proof fn lemma_every_box_has_its_dot(
    a: AppView,
    s: SheetView,
    dots: Seq<(u16, u16)>,
    n: int,
    k: int,
)
    requires
        0 <= k < n <= a.canvas.nodes.len(),
        dots.len() == a.canvas.nodes.len(),
        forall|i: int|
            0 <= i < dots.len() ==> s.screen.x <= (#[trigger] dots[i]).0 < s.screen.x_end()
                && s.screen.y <= dots[i].1 < s.screen.y_end(),
    ensures
        a.dots_drawn(s, dots, n).out.len() == s.out.len() + n,
        a.dots_drawn(s, dots, n).screen == s.screen,
        a.dots_drawn(s, dots, n).out[s.out.len() + k] matches PaintView::Glyph { x, y, look, .. }
            && (x, y) == dots[k] && (a.canvas.nodes[k].color is Some ==> look.fg == Some(
            ink_of(a.canvas.nodes[k].color->0),
        )),
    decreases n,
{
    if n > 1 {
        lemma_every_box_has_its_dot(
            a,
            s,
            dots,
            n - 1,
            if k < n - 1 {
                k
            } else {
                0
            },
        );
    }
    let before = a.dots_drawn(s, dots, n - 1);
    if n == 1 {
        assert(before == s);
    }
    assert(dots[n - 1].0 < s.screen.x_end());
}

/// A box's dot on the map stands for its middle, and while the box is resized
/// for the middle of what it is resized to.
pub proof fn lemma_dot_stands_for_its_box(a: AppView, i: int)
    requires
        0 <= i < a.canvas.nodes.len(),
    ensures
        a.live_middle() is None ==> a.map_point(i) == box_middle(a.canvas.nodes[i].rect),
        a.live_middle() is Some && (a.live_middle()->0).0 != a.canvas.nodes[i].id ==> a.map_point(
            i,
        ) == box_middle(a.canvas.nodes[i].rect),
        a.live_middle() is Some && (a.live_middle()->0).0 == a.canvas.nodes[i].id ==> a.map_point(
            i,
        ) == (a.live_middle()->0).1,
{
}

/// A connector that names both its sides uses them; one that is anchored to a
/// column leaves at the top or the bottom, one that is anchored to a row at
/// the left or the right.
pub proof fn lemma_sides_follow_the_anchors(scene: Scene, e: EdgeView)
    requires
        scene.ends(e) is Some,
    ensures
        scene.sides(e) is Some,
        e.from_side is Some && e.to_side is Some ==> scene.sides(e) == Some(
            (e.from_side->0, e.to_side->0),
        ),
        (e.from_side is None || e.to_side is None) && (e.from_anchor matches Some(c) && c.col is Some
            && c.row is None) ==> !is_horizontal((scene.sides(e)->0).0),
        (e.from_side is None || e.to_side is None) && (e.from_anchor matches Some(c) && c.row is Some
            && c.col is None) ==> is_horizontal((scene.sides(e)->0).0),
        (e.from_side is None || e.to_side is None) && (e.to_anchor matches Some(c) && c.col is Some
            && c.row is None) ==> !is_horizontal((scene.sides(e)->0).1),
        (e.from_side is None || e.to_side is None) && (e.to_anchor matches Some(c) && c.row is Some
            && c.col is None) ==> is_horizontal((scene.sides(e)->0).1),
        is_horizontal(Side::Left) && is_horizontal(Side::Right),
        !is_horizontal(Side::Top) && !is_horizontal(Side::Bottom),
{
}

/// A connector runs between its own two boxes, from the one to the other, and
/// a box that is being dragged counts where it is dragged to.
pub proof fn lemma_link_joins_its_boxes(scene: Scene, i: int, id: Seq<char>, n: NodeView)
    requires
        0 <= i < scene.canvas.edges.len(),
        scene.ends(scene.canvas.edges[i]) is Some,
    ensures
        scene.link(i) matches Some(l) && Some(l.from) == scene.rect(scene.canvas.edges[i].from)
            && Some(l.to) == scene.rect(scene.canvas.edges[i].to),
        scene.live is None && scene.canvas.node(id) == Some(n) ==> scene.rect(id) == Some(
            on_screen(n.rect, scene.camera, scene.area),
        ),
        scene.live is Some ==> scene.rect((scene.live->0).0) == Some((scene.live->0).1),
{
}

/// An arrowhead at an anchored end stands one cell before the end, and points
/// to it; the anchor itself is drawn over the end's own cell.
pub proof fn lemma_anchored_head_is_one_cell_back(
    a: AppView,
    s: SheetView,
    e: EdgeView,
    w: Seq<Point>,
    look: Look,
)
    requires
        w.len() >= 2,
        w[w.len() - 2] != w[w.len() - 1],
        w[w.len() - 2].1 == w[w.len() - 1].1,
        w[w.len() - 2].0 < w[w.len() - 1].0,
        e.from_anchor is None,
        e.from_end == EdgeEnd::Plain,
        e.to_end == EdgeEnd::Arrow,
        e.to_anchor is Some,
        s.screen.x < w.last().0 < s.screen.x_end(),
        s.screen.y <= w.last().1 < s.screen.y_end(),
    ensures
        ({
            let b = a.ends_drawn(s, e, w, look);
            let n = s.out.len() as int;
            &&& b.out.len() == n + 2
            &&& b.out[n] matches PaintView::Glyph { x, y, ch, .. } && x == w.last().0 - 1 && y
                == w.last().1 && ch == '>'
            &&& b.out[n + 1] matches PaintView::Glyph { x, y, ch, .. } && x == w.last().0 && y
                == w.last().1 && ch == '●'
        }),
{
    let n = w.len() as int;
    assert(before_end(w, w[n - 1], n - 1) == Some(w[n - 2]));
}

/// Whether a text stands somewhere in another.
pub open spec fn appears_in(part: Seq<char>, text: Seq<char>) -> bool {
    exists|i: int|
        0 <= i <= text.len() - part.len() && #[trigger] text.subrange(i, i + part.len()) == part
}

/// The status line comes last in a frame, and says what the status is.
pub proof fn lemma_status_is_drawn_last(
    a: AppView,
    area: Rect,
    status_area: Rect,
    screen: Rect,
    map: Option<MapLayout>,
    at: Landing,
)
    ensures
        a.frame(area, status_area, screen, map, at).out.last() matches PaintView::Text {
            area: place,
            text,
            ..
        } && place == status_area && appears_in(a.status, text) && appears_in(
            mode_text(a.mode),
            text,
        ),
{
    let mode = mode_text(a.mode);
    let text = mode + " — "@ + a.status + " — "@ + hint_text();
    let i = (mode + " — "@).len() as int;
    assert(text.subrange(i, i + a.status.len()) =~= a.status);
    assert(text.subrange(0, 0 + mode.len() as int) =~= mode);
    assert(appears_in(a.status, text) && appears_in(mode, text));
}

/// A connector that is anchored at one end only runs at that part of both its
/// sides, and between the sides that its anchor allows.
pub proof fn lemma_one_anchor_lines_up_both_ends(scene: Scene, i: int)
    requires
        0 <= i < scene.canvas.edges.len(),
        scene.ends(scene.canvas.edges[i]) is Some,
        ({
            let e = scene.canvas.edges[i];
            let (f, t) = scene.ends(e)->0;
            let (fs, ts) = scene.sides(e)->0;
            let from = anchor_part(grid_of(scene.canvas, e.from), e.from_anchor, fs, f);
            let to = anchor_part(grid_of(scene.canvas, e.to), e.to_anchor, ts, t);
            (from is Some) != (to is Some)
        }),
    ensures
        scene.link(i) matches Some(l) && l.from_part == l.to_part && l.sides == scene.sides(
            scene.canvas.edges[i],
        ),
{
}

/// Where along a side an anchor is: on the top and the bottom in the middle of
/// its column, on the left and the right in the middle of its row.
pub proof fn lemma_anchor_is_on_its_axis(t: Cells, row: usize, col: usize, r: ScreenRect)
    ensures
        ({
            let a = Some(CellAnchor { row: Some(row), col: Some(col) });
            let only_col = Some(CellAnchor { row: None, col: Some(col) });
            let only_row = Some(CellAnchor { row: Some(row), col: None });
            &&& anchor_part(Some(t), a, Side::Top, r) == col_center(t, col as int, r.width)
            &&& anchor_part(Some(t), a, Side::Left, r) == row_center(t, row as int, r.height)
            &&& anchor_part(Some(t), only_col, Side::Bottom, r) == col_center(
                t,
                col as int,
                r.width,
            )
            &&& anchor_part(Some(t), only_col, Side::Left, r) is None
            &&& anchor_part(Some(t), only_row, Side::Right, r) == row_center(
                t,
                row as int,
                r.height,
            )
            &&& anchor_part(Some(t), only_row, Side::Top, r) is None
            &&& anchor_part(None, a, Side::Top, r) is None
        }),
{
}

} // verus!

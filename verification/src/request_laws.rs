//! What each request does to a board: to the one box or connector that it
//! names, and to nothing else.

use vstd::prelude::*;

use crate::app::{AppView, RequestView, ResponseView};
use crate::app_laws::lemma_noted_first;
use crate::canvas_io::file_of;
use crate::model::{
    find_edge, find_node, lemma_find_edge, lemma_find_node, lemma_next_is_fresh, not_edge,
    not_node, not_touching, opt_color_of, CanvasView, ColorView, EdgeEnd, EdgeView, KindView,
    NodeView, Shape, Side,
};
use crate::target::SelectedView;

verus! {

/// Whether a box is the first with an id on a board.
pub open spec fn is_first_box(c: CanvasView, id: Seq<char>, i: int) -> bool {
    &&& 0 <= i < c.nodes.len()
    &&& c.nodes[i].id == id
    &&& forall|k: int| 0 <= k < i ==> (#[trigger] c.nodes[k]).id != id
}

/// Whether a connector is the first with an id on a board.
pub open spec fn is_first_connector(c: CanvasView, id: Seq<char>, i: int) -> bool {
    &&& 0 <= i < c.edges.len()
    &&& c.edges[i].id == id
    &&& forall|k: int| 0 <= k < i ==> (#[trigger] c.edges[k]).id != id
}

/// Whether two boards differ in one box at most, which keeps its id.
pub open spec fn differs_in_box(c: CanvasView, d: CanvasView, i: int) -> bool {
    &&& d.edges == c.edges
    &&& d.next_id == c.next_id
    &&& d.nodes.len() == c.nodes.len()
    &&& d.nodes[i].id == c.nodes[i].id
    &&& forall|k: int| 0 <= k < c.nodes.len() && k != i ==> #[trigger] d.nodes[k] == c.nodes[k]
}

/// Whether two boards differ in one connector at most, which keeps its id.
pub open spec fn differs_in_connector(c: CanvasView, d: CanvasView, i: int) -> bool {
    &&& d.nodes == c.nodes
    &&& d.next_id == c.next_id
    &&& d.edges.len() == c.edges.len()
    &&& d.edges[i].id == c.edges[i].id
    &&& forall|k: int| 0 <= k < c.edges.len() && k != i ==> #[trigger] d.edges[k] == c.edges[k]
}

/// Whether a color is what a text names: one of the six presets for the
/// digits 1 to 6, the text itself as a hex color for any other.
pub open spec fn names_color(text: Option<Seq<char>>, color: Option<ColorView>) -> bool {
    match (text, color) {
        (None, None) => true,
        (Some(s), Some(ColorView::Preset(n))) => {
            &&& s.len() == 1
            &&& 1 <= n <= 6
            &&& s[0] as u32 == '0' as u32 + n
        },
        (Some(s), Some(ColorView::Hex(h))) => {
            &&& h == s
            &&& !(s.len() == 1 && '1' as u32 <= s[0] as u32 <= '6' as u32)
        },
        _ => false,
    }
}

proof fn lemma_first_box(c: CanvasView, id: Seq<char>, i: int)
    requires
        is_first_box(c, id, i),
    ensures
        find_node(c.nodes, id) == Some(i),
        c.has_node(id),
        c.node(id) == Some(c.nodes[i]),
{
    lemma_find_node(c.nodes, id);
}

proof fn lemma_first_connector(c: CanvasView, id: Seq<char>, i: int)
    requires
        is_first_connector(c, id, i),
    ensures
        find_edge(c.edges, id) == Some(i),
        c.has_edge(id),
        c.edge(id) == Some(c.edges[i]),
{
    lemma_find_edge(c.edges, id);
}

/// A new text replaces a text box's text and nothing else; a box that holds
/// no text stays as it is.
pub proof fn lemma_set_text_changes_the_text(a: AppView, id: Seq<char>, text: Seq<char>, i: int)
    requires
        is_first_box(a.canvas, id, i),
    ensures
        ({
            let (b, reply) = a.dispatched(RequestView::SetText { id, text });
            let (was, now) = (a.canvas.nodes[i], b.canvas.nodes[i]);
            &&& reply == Ok::<ResponseView, Seq<char>>(ResponseView::Done)
            &&& differs_in_box(a.canvas, b.canvas, i)
            &&& now.rect == was.rect && now.color == was.color && now.shape == was.shape
            &&& was.kind is Text ==> now.kind == KindView::Text(text)
            &&& !(was.kind is Text) ==> now.kind == was.kind
        }),
{
    reveal(AppView::applied);
    let req = RequestView::SetText { id, text };
    lemma_first_box(a.canvas, id, i);
    lemma_noted_first(a, req);
}

/// A new rectangle is the box's place and size, a side of no cells counted as
/// one, and nothing else changes.
pub proof fn lemma_set_rect_changes_the_rect(
    a: AppView,
    id: Seq<char>,
    x: i32,
    y: i32,
    w: u16,
    h: u16,
    i: int,
)
    requires
        is_first_box(a.canvas, id, i),
    ensures
        ({
            let (b, reply) = a.dispatched(RequestView::SetRect { id, x, y, w, h });
            let (was, now) = (a.canvas.nodes[i], b.canvas.nodes[i]);
            &&& reply == Ok::<ResponseView, Seq<char>>(ResponseView::Done)
            &&& differs_in_box(a.canvas, b.canvas, i)
            &&& now.rect.x == x && now.rect.y == y
            &&& w > 0 ==> now.rect.width == w
            &&& h > 0 ==> now.rect.height == h
            &&& w == 0 ==> now.rect.width == 1
            &&& h == 0 ==> now.rect.height == 1
            &&& now.color == was.color && now.shape == was.shape && now.kind == was.kind
        }),
{
    reveal(AppView::applied);
    let req = RequestView::SetRect { id, x, y, w, h };
    lemma_first_box(a.canvas, id, i);
    lemma_noted_first(a, req);
}

proof fn lemma_names_color(s: Option<Seq<char>>)
    ensures
        names_color(s, opt_color_of(s)),
{
}

/// A new color is a box's color and nothing else changes; no color clears it.
pub proof fn lemma_set_color_changes_the_color(
    a: AppView,
    id: Seq<char>,
    color: Option<Seq<char>>,
    i: int,
)
    requires
        is_first_box(a.canvas, id, i),
    ensures
        ({
            let (b, reply) = a.dispatched(RequestView::SetColor { id, color });
            let (was, now) = (a.canvas.nodes[i], b.canvas.nodes[i]);
            &&& reply == Ok::<ResponseView, Seq<char>>(ResponseView::Done)
            &&& differs_in_box(a.canvas, b.canvas, i)
            &&& names_color(color, now.color)
            &&& now.rect == was.rect && now.shape == was.shape && now.kind == was.kind
        }),
{
    reveal(AppView::applied);
    let req = RequestView::SetColor { id, color };
    lemma_first_box(a.canvas, id, i);
    lemma_noted_first(a, req);
    lemma_names_color(color);
}

/// A new shape is a box's shape and nothing else changes.
pub proof fn lemma_set_shape_changes_the_shape(
    a: AppView,
    id: Seq<char>,
    shape: Seq<char>,
    i: int,
)
    requires
        is_first_box(a.canvas, id, i),
    ensures
        ({
            let (b, reply) = a.dispatched(RequestView::SetShape { id, shape });
            let (was, now) = (a.canvas.nodes[i], b.canvas.nodes[i]);
            &&& reply == Ok::<ResponseView, Seq<char>>(ResponseView::Done)
            &&& differs_in_box(a.canvas, b.canvas, i)
            &&& now.shape == Shape::Rounded <==> shape == "rounded"@
            &&& now.rect == was.rect && now.color == was.color && now.kind == was.kind
        }),
{
    reveal(AppView::applied);
    let req = RequestView::SetShape { id, shape };
    lemma_first_box(a.canvas, id, i);
    lemma_noted_first(a, req);
}

/// A new label is a connector's label, none where it is empty, and nothing
/// else changes.
pub proof fn lemma_set_label_changes_the_label(
    a: AppView,
    id: Seq<char>,
    label: Option<Seq<char>>,
    i: int,
)
    requires
        is_first_connector(a.canvas, id, i),
    ensures
        ({
            let (b, reply) = a.dispatched(RequestView::SetLabel { id, label });
            let (was, now) = (a.canvas.edges[i], b.canvas.edges[i]);
            &&& reply == Ok::<ResponseView, Seq<char>>(ResponseView::Done)
            &&& differs_in_connector(a.canvas, b.canvas, i)
            &&& label is Some && label->0.len() > 0 ==> now.label == label
            &&& label is None || label->0.len() == 0 ==> now.label is None
            &&& now == (EdgeView { label: now.label, ..was })
        }),
{
    reveal(AppView::applied);
    let req = RequestView::SetLabel { id, label };
    lemma_first_connector(a.canvas, id, i);
    lemma_noted_first(a, req);
}

/// A new color is a connector's color and nothing else changes.
pub proof fn lemma_set_connector_color_changes_the_color(
    a: AppView,
    id: Seq<char>,
    color: Option<Seq<char>>,
    i: int,
)
    requires
        is_first_connector(a.canvas, id, i),
    ensures
        ({
            let (b, reply) = a.dispatched(RequestView::SetEdgeColor { id, color });
            let (was, now) = (a.canvas.edges[i], b.canvas.edges[i]);
            &&& reply == Ok::<ResponseView, Seq<char>>(ResponseView::Done)
            &&& differs_in_connector(a.canvas, b.canvas, i)
            &&& names_color(color, now.color)
            &&& now == (EdgeView { color: now.color, ..was })
        }),
{
    reveal(AppView::applied);
    let req = RequestView::SetEdgeColor { id, color };
    lemma_first_connector(a.canvas, id, i);
    lemma_noted_first(a, req);
    lemma_names_color(color);
}

/// New ends are a connector's ends, each with a head where "arrow" says so,
/// and nothing else changes.
pub proof fn lemma_set_ends_changes_the_ends(
    a: AppView,
    id: Seq<char>,
    from_end: Seq<char>,
    to_end: Seq<char>,
    i: int,
)
    requires
        is_first_connector(a.canvas, id, i),
    ensures
        ({
            let (b, reply) = a.dispatched(RequestView::SetEdgeEnds { id, from_end, to_end });
            let (was, now) = (a.canvas.edges[i], b.canvas.edges[i]);
            &&& reply == Ok::<ResponseView, Seq<char>>(ResponseView::Done)
            &&& differs_in_connector(a.canvas, b.canvas, i)
            &&& now.from_end == EdgeEnd::Arrow <==> from_end == "arrow"@
            &&& now.to_end == EdgeEnd::Arrow <==> to_end == "arrow"@
            &&& now == (EdgeView { from_end: now.from_end, to_end: now.to_end, ..was })
        }),
{
    reveal(AppView::applied);
    let req = RequestView::SetEdgeEnds { id, from_end, to_end };
    lemma_first_connector(a.canvas, id, i);
    lemma_noted_first(a, req);
}

/// Whether a side is what a text names, none for any other text.
pub open spec fn names_side(text: Option<Seq<char>>, side: Option<Side>) -> bool {
    &&& text == Some("top"@) ==> side == Some(Side::Top)
    &&& text == Some("right"@) ==> side == Some(Side::Right)
    &&& text == Some("bottom"@) ==> side == Some(Side::Bottom)
    &&& text == Some("left"@) ==> side == Some(Side::Left)
    &&& side is Some ==> text is Some && (text->0 == "top"@ || text->0 == "right"@ || text->0
        == "bottom"@ || text->0 == "left"@)
}

/// New sides are a connector's sides and nothing else changes.
pub proof fn lemma_set_sides_changes_the_sides(
    a: AppView,
    id: Seq<char>,
    from_side: Option<Seq<char>>,
    to_side: Option<Seq<char>>,
    i: int,
)
    requires
        is_first_connector(a.canvas, id, i),
    ensures
        ({
            let (b, reply) = a.dispatched(RequestView::SetEdgeSides { id, from_side, to_side });
            let (was, now) = (a.canvas.edges[i], b.canvas.edges[i]);
            &&& reply == Ok::<ResponseView, Seq<char>>(ResponseView::Done)
            &&& differs_in_connector(a.canvas, b.canvas, i)
            &&& names_side(from_side, now.from_side)
            &&& names_side(to_side, now.to_side)
            &&& now == (EdgeView { from_side: now.from_side, to_side: now.to_side, ..was })
        }),
{
    reveal(AppView::applied);
    let req = RequestView::SetEdgeSides { id, from_side, to_side };
    lemma_first_connector(a.canvas, id, i);
    lemma_noted_first(a, req);
    reveal_strlit("top");
    reveal_strlit("right");
    reveal_strlit("bottom");
    reveal_strlit("left");
    assert("top"@[0] == 't' && "right"@[0] == 'r' && "bottom"@[0] == 'b' && "left"@[0] == 'l');
}

/// Pointing an end of a connector at a box moves that end there, unless the
/// other end is at the same box, and nothing else changes.
pub proof fn lemma_reattach_moves_one_end(
    a: AppView,
    id: Seq<char>,
    node: Seq<char>,
    i: int,
)
    requires
        is_first_connector(a.canvas, id, i),
        a.canvas.has_node(node),
    ensures
        ({
            let (b, reply) = a.dispatched(RequestView::Reattach { id, end: "from"@, node });
            let (was, now) = (a.canvas.edges[i], b.canvas.edges[i]);
            &&& was.to == node ==> reply is Err && b == a
            &&& was.to != node ==> {
                &&& reply == Ok::<ResponseView, Seq<char>>(ResponseView::Done)
                &&& differs_in_connector(a.canvas, b.canvas, i)
                &&& now == (EdgeView { from: node, ..was })
            }
        }),
        ({
            let (b, reply) = a.dispatched(RequestView::Reattach { id, end: "to"@, node });
            let (was, now) = (a.canvas.edges[i], b.canvas.edges[i]);
            &&& was.from == node ==> reply is Err && b == a
            &&& was.from != node ==> {
                &&& reply == Ok::<ResponseView, Seq<char>>(ResponseView::Done)
                &&& differs_in_connector(a.canvas, b.canvas, i)
                &&& now == (EdgeView { to: node, ..was })
            }
        }),
{
    reveal(AppView::applied);
    reveal_strlit("from");
    reveal_strlit("to");
    assert("from"@.len() != "to"@.len());
    lemma_first_connector(a.canvas, id, i);
    lemma_noted_first(a, RequestView::Reattach { id, end: "from"@, node });
    lemma_noted_first(a, RequestView::Reattach { id, end: "to"@, node });
}

/// Connecting two boxes adds one connector, behind all the others, from the
/// one to the other, with a head where it arrives and none where it leaves,
/// and with an id that nothing on the board had.
pub proof fn lemma_connect_adds_one_connector(a: AppView, from: Seq<char>, to: Seq<char>)
    requires
        a.canvas.wf(),
        a.canvas.next_id < u64::MAX,
        a.canvas.has_node(from),
        a.canvas.has_node(to),
    ensures
        ({
            let (b, reply) = a.dispatched(RequestView::Connect { from, to });
            let (c, d) = (a.canvas, b.canvas);
            let n = c.edges.len() as int;
            &&& reply == Ok::<ResponseView, Seq<char>>(ResponseView::Done)
            &&& d.nodes == c.nodes
            &&& d.edges.len() == n + 1
            &&& forall|k: int| 0 <= k < n ==> #[trigger] d.edges[k] == c.edges[k]
            &&& d.edges[n].from == from && d.edges[n].to == to
            &&& d.edges[n].to_end == EdgeEnd::Arrow && d.edges[n].from_end == EdgeEnd::Plain
            &&& d.edges[n].label is None && d.edges[n].color is None
            &&& d.edges[n].from_side is None && d.edges[n].to_side is None
            &&& d.edges[n].from_anchor is None && d.edges[n].to_anchor is None
            &&& !c.has_edge(d.edges[n].id) && !c.has_node(d.edges[n].id)
        }),
{
    reveal(AppView::applied);
    lemma_noted_first(a, RequestView::Connect { from, to });
    lemma_next_is_fresh(a.canvas);
}

/// A request that names a box or a connector which is not on the board is
/// refused, says which, and changes nothing.
pub proof fn lemma_missing_things_are_refused(
    a: AppView,
    id: Seq<char>,
    other: Seq<char>,
    text: Seq<char>,
)
    ensures
        !a.canvas.has_node(id) ==> {
            &&& a.dispatched(RequestView::SetText { id, text }) == (a, Err::<
                ResponseView,
                Seq<char>,
            >("no such node: "@ + id))
            &&& a.dispatched(RequestView::Connect { from: id, to: other }) == (a, Err::<
                ResponseView,
                Seq<char>,
            >("no such node: "@ + id))
            &&& a.canvas.has_node(other) ==> a.dispatched(
                RequestView::Connect { from: other, to: id },
            ) == (a, Err::<ResponseView, Seq<char>>("no such node: "@ + id))
            &&& a.dispatched(RequestView::Reattach { id: other, end: text, node: id }) == (a, Err::<
                ResponseView,
                Seq<char>,
            >("no such node: "@ + id))
        },
        !a.canvas.has_edge(id) ==> {
            &&& a.dispatched(RequestView::SetLabel { id, label: Some(text) }) == (a, Err::<
                ResponseView,
                Seq<char>,
            >("no such connector: "@ + id))
            &&& a.canvas.has_node(other) ==> a.dispatched(
                RequestView::Reattach { id, end: text, node: other },
            ) == (a, Err::<ResponseView, Seq<char>>("no such connector: "@ + id))
        },
{
    reveal(AppView::applied);
}

/// Deleting a box takes out that box and the connectors that touch it. Every
/// other box and connector stays, and they keep their order.
pub proof fn lemma_delete_takes_one_box(a: AppView, id: Seq<char>)
    ensures
        ({
            let (b, reply) = a.dispatched(RequestView::Delete { id });
            &&& reply == Ok::<ResponseView, Seq<char>>(ResponseView::Done)
            &&& b.canvas.nodes == a.canvas.nodes.filter(|n: NodeView| n.id != id)
            &&& b.canvas.edges == a.canvas.edges.filter(|e: EdgeView| !(e.from == id || e.to == id))
            &&& b.selected == if a.selected == Some(SelectedView::Node(id)) {
                None
            } else {
                a.selected
            }
        }),
{
    reveal(AppView::applied);
    lemma_noted_first(a, RequestView::Delete { id });
    assert(not_node(id) =~= (|n: NodeView| n.id != id));
    assert(not_touching(id) =~= (|e: EdgeView| !(e.from == id || e.to == id)));
}

/// Deleting a connector takes out that connector and nothing else.
pub proof fn lemma_delete_takes_one_connector(a: AppView, id: Seq<char>)
    ensures
        ({
            let (b, reply) = a.dispatched(RequestView::DeleteEdge { id });
            &&& reply == Ok::<ResponseView, Seq<char>>(ResponseView::Done)
            &&& b.canvas.nodes == a.canvas.nodes
            &&& b.canvas.edges == a.canvas.edges.filter(|e: EdgeView| e.id != id)
            &&& b.selected == if a.selected == Some(SelectedView::Edge(id)) {
                None
            } else {
                a.selected
            }
        }),
{
    reveal(AppView::applied);
    lemma_noted_first(a, RequestView::DeleteEdge { id });
    assert(not_edge(id) =~= (|e: EdgeView| e.id != id));
}

/// A placed box lies on top of all the others, where it was asked for, as
/// large as it was asked for, and the rest of the board stays as it is. What
/// was not asked for is 16 columns or 3 rows.
pub proof fn lemma_place_adds_one_box(a: AppView, x: i32, y: i32, w: Option<u16>, h: Option<u16>)
    ensures
        ({
            let (b, reply) = a.dispatched(RequestView::Place { x, y, w, h });
            let n = a.canvas.nodes.len() as int;
            &&& b.canvas.edges == a.canvas.edges
            &&& b.canvas.nodes.len() == n + 1
            &&& forall|k: int| 0 <= k < n ==> #[trigger] b.canvas.nodes[k] == a.canvas.nodes[k]
            &&& b.canvas.nodes[n].rect.x == x && b.canvas.nodes[n].rect.y == y
            &&& b.canvas.nodes[n].rect.width == (if w is Some {
                w->0
            } else {
                16
            })
            &&& b.canvas.nodes[n].rect.height == (if h is Some {
                h->0
            } else {
                3
            })
            &&& b.canvas.nodes[n].kind == KindView::Text(Seq::empty())
            &&& b.canvas.nodes[n].color is None && b.canvas.nodes[n].shape == Shape::Rectangle
            &&& reply == Ok::<ResponseView, Seq<char>>(
                ResponseView::Placed { id: b.canvas.nodes[n].id },
            )
        }),
{
    reveal(AppView::applied);
    lemma_noted_first(a, RequestView::Place { x, y, w, h });
}

/// What is asked of a board is answered with the board as it is; a selection
/// is what was asked for; a save is asked of the caller where there is a file
/// to save to.
pub proof fn lemma_queries_are_answered(a: AppView, id: Option<SelectedView>)
    ensures
        a.dispatched(RequestView::State) == (a, Ok::<ResponseView, Seq<char>>(
            ResponseView::State { board: file_of(a.canvas) },
        )),
        a.dispatched(RequestView::Select { id }).0 == (AppView { selected: id, ..a }),
        a.save_path is Some ==> a.dispatched(RequestView::Save).0 == (AppView {
            wants_save: true,
            ..a
        }),
        a.save_path is None ==> !a.wants_save ==> !a.dispatched(RequestView::Save).0.wants_save,
{
    reveal(AppView::applied);
}

} // verus!

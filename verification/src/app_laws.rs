//! What every event keeps of the editor's state, and what its requests
//! promise: undo steps back, redo steps forward, and a refused request
//! leaves the board alone.

use vstd::prelude::*;

use crate::app::{limited, AppView, RequestView, ResponseView, UNDO_LIMIT};
use crate::model::{
    lemma_changes_keep_ids_fresh, lemma_find_edge, lemma_find_node, lemma_next_is_fresh, new_edge,
    new_text, not_node, not_touching, place_rect, CanvasView, EdgeView, KindView, NodeView, Shape,
    WorldRect,
};
use crate::target::SelectedView;

verus! {

impl AppView {
    /// How many steps can be undone or redone.
    pub open spec fn history(self) -> nat {
        self.undo.len() + self.redo.len()
    }
}

/// What no request and no edit changes: the drag, what can be hit, the
/// rectangle being drawn, the view of the board, its file and its merge
/// state. The state stays well formed, and its history within the limit.
pub open spec fn kept(a: AppView, b: AppView) -> bool {
    &&& b.drag == a.drag
    &&& b.hits == a.hits
    &&& b.edge_hits == a.edge_hits
    &&& b.drawing == a.drawing
    &&& b.area == a.area
    &&& b.camera == a.camera
    &&& b.save_path == a.save_path
    &&& b.collab == a.collab
    &&& a.wf() ==> b.wf()
    &&& a.history() <= UNDO_LIMIT ==> b.history() <= UNDO_LIMIT
}

pub(crate) proof fn lemma_noted(a: AppView)
    ensures
        kept(a, a.noted()),
        a.noted().canvas == a.canvas,
{
    let b = a.noted();
    let full = a.undo.push(a.canvas);
    if a.wf() {
        assert forall|i: int| 0 <= i < b.undo.len() implies (#[trigger] b.undo[i]).wf() by {
            if full.len() > UNDO_LIMIT {
                assert(b.undo[i] == full[i + 1]);
                if i + 1 < a.undo.len() {
                    assert(full[i + 1] == a.undo[i + 1]);
                }
            } else if i < a.undo.len() {
                assert(b.undo[i] == a.undo[i]);
            }
        }
    }
}

/// A box of the board has the id that it is found by.
proof fn lemma_found(c: CanvasView, id: Seq<char>)
    ensures
        c.has_node(id) ==> c.node(id)->0.id == id,
        c.has_edge(id) ==> c.edge(id)->0.id == id,
{
    lemma_find_node(c.nodes, id);
    lemma_find_edge(c.edges, id);
}

/// A changed box or connector that keeps its id keeps the board well
/// formed.
proof fn lemma_changed(c: CanvasView, id: Seq<char>, node: NodeView, edge: EdgeView)
    ensures
        c.wf() && (c.has_node(id) ==> node.id == id) ==> c.with_node(id, node).wf(),
        c.wf() && (c.has_edge(id) ==> edge.id == id) ==> c.with_edge(id, edge).wf(),
        c.with_node(id, node).next_id == c.next_id,
        c.with_edge(id, edge).next_id == c.next_id,
{
    let n = NodeView { id, ..node };
    let e = EdgeView { id, ..edge };
    let rect = WorldRect { x: 0, y: 0, width: 0, height: 0 };
    if c.wf() {
        lemma_changes_keep_ids_fresh(c, id, rect, id, id, n, e, id);
    }
}

proof fn lemma_removed(
    c: CanvasView,
    id: Seq<char>,
    rect: WorldRect,
    from: Seq<char>,
    to: Seq<char>,
    text: Seq<char>,
)
    requires
        c.wf(),
    ensures
        c.next_id < u64::MAX ==> c.placed(rect).wf() && c.connected(from, to).wf(),
        c.without_node(id).wf(),
        c.without_edge(id).wf(),
        c.with_text(id, text).wf(),
{
    let n = NodeView {
        id,
        rect,
        color: None,
        shape: Shape::Rectangle,
        kind: KindView::Text(text),
    };
    let e = new_edge(id, from, to);
    lemma_changes_keep_ids_fresh(c, id, rect, from, to, n, e, text);
}

proof fn lemma_applied(a: AppView, req: RequestView)
    requires
        req.needs_id() ==> a.canvas.next_id < u64::MAX,
    ensures
        kept(a, a.applied(req).0),
        !(req is Undo || req is Redo || req.needs_id()) ==> a.applied(req).0.canvas.next_id
            == a.canvas.next_id,
        req.needs_id() ==> a.applied(req).0.canvas.next_id <= a.canvas.next_id + 1,
        a.applied(req).1 is Err ==> a.applied(req).0 == a,
{
    reveal(AppView::applied);
    let c = a.canvas;
    let b = a.applied(req).0;
    match req {
        RequestView::Place { x, y, w, h } => {
            let rect = place_rect(x, y, w, h);
            if c.wf() {
                lemma_removed(c, c.next(), rect, c.next(), c.next(), c.next());
            }
        },
        RequestView::SetText { id, text } => {
            if c.wf() {
                lemma_removed(c, id, WorldRect { x: 0, y: 0, width: 0, height: 0 }, id, id, text);
            }
        },
        RequestView::SetRect { id, .. } => {
            lemma_found(c, id);
            lemma_changed_node(a, id, b);
        },
        RequestView::SetColor { id, .. } => {
            lemma_found(c, id);
            lemma_changed_node(a, id, b);
        },
        RequestView::SetShape { id, .. } => {
            lemma_found(c, id);
            lemma_changed_node(a, id, b);
        },
        RequestView::Connect { from, to } => {
            if c.wf() {
                lemma_removed(c, from, WorldRect { x: 0, y: 0, width: 0, height: 0 }, from, to, to);
            }
        },
        RequestView::Delete { id } => {
            if c.wf() {
                lemma_removed(c, id, WorldRect { x: 0, y: 0, width: 0, height: 0 }, id, id, id);
            }
        },
        RequestView::SetLabel { id, .. } => {
            lemma_found(c, id);
            lemma_changed_edge(a, id, b);
        },
        RequestView::SetEdgeColor { id, .. } => {
            lemma_found(c, id);
            lemma_changed_edge(a, id, b);
        },
        RequestView::SetEdgeEnds { id, .. } => {
            lemma_found(c, id);
            lemma_changed_edge(a, id, b);
        },
        RequestView::SetEdgeSides { id, .. } => {
            lemma_found(c, id);
            lemma_changed_edge(a, id, b);
        },
        RequestView::DeleteEdge { id } => {
            if c.wf() {
                lemma_removed(c, id, WorldRect { x: 0, y: 0, width: 0, height: 0 }, id, id, id);
            }
        },
        RequestView::Reattach { id, end, node } => {
            lemma_found(c, id);
            lemma_changed_edge(a, id, b);
        },
        RequestView::Select { .. } => {},
        RequestView::State => {},
        RequestView::Save => {},
        RequestView::Undo => lemma_undone(a),
        RequestView::Redo => lemma_redone(a),
    }
}

proof fn lemma_changed_node(a: AppView, id: Seq<char>, b: AppView)
    ensures
        forall|node: NodeView|
            (a.canvas.has_node(id) ==> node.id == id) && b == #[trigger] a.changed_node(id, node).0
                ==> kept(a, b) && b.canvas.next_id == a.canvas.next_id,
{
    assert forall|node: NodeView|
        (a.canvas.has_node(id) ==> node.id == id) && b == #[trigger] a.changed_node(
            id,
            node,
        ).0 implies kept(a, b) && b.canvas.next_id == a.canvas.next_id by {
        let e = new_edge(id, id, id);
        lemma_changed(a.canvas, id, node, e);
    }
}

proof fn lemma_changed_edge(a: AppView, id: Seq<char>, b: AppView)
    ensures
        forall|edge: EdgeView|
            (a.canvas.has_edge(id) ==> edge.id == id) && b == #[trigger] a.changed_edge(id, edge).0
                ==> kept(a, b) && b.canvas.next_id == a.canvas.next_id,
{
    assert forall|edge: EdgeView|
        (a.canvas.has_edge(id) ==> edge.id == id) && b == #[trigger] a.changed_edge(
            id,
            edge,
        ).0 implies kept(a, b) && b.canvas.next_id == a.canvas.next_id by {
        let n = new_text(id, WorldRect { x: 0, y: 0, width: 0, height: 0 });
        lemma_changed(a.canvas, id, n, edge);
    }
}

proof fn lemma_undone(a: AppView)
    ensures
        kept(a, a.undone().0),
{
    if a.undo.len() > 0 {
        let b = a.undone().0;
        assert(a.undo[a.undo.len() - 1] == a.undo.last());
        if a.wf() {
            assert forall|i: int| 0 <= i < b.redo.len() implies (#[trigger] b.redo[i]).wf() by {
                if i < a.redo.len() {
                    assert(b.redo[i] == a.redo[i]);
                }
            }
            assert forall|i: int| 0 <= i < b.undo.len() implies (#[trigger] b.undo[i]).wf() by {
                assert(b.undo[i] == a.undo[i]);
            }
        }
    }
}

proof fn lemma_redone(a: AppView)
    ensures
        kept(a, a.redone().0),
{
    if a.redo.len() > 0 {
        let b = a.redone().0;
        assert(a.redo[a.redo.len() - 1] == a.redo.last());
        if a.wf() {
            assert forall|i: int| 0 <= i < b.undo.len() implies (#[trigger] b.undo[i]).wf() by {
                if i < a.undo.len() {
                    assert(b.undo[i] == a.undo[i]);
                }
            }
            assert forall|i: int| 0 <= i < b.redo.len() implies (#[trigger] b.redo[i]).wf() by {
                assert(b.redo[i] == a.redo[i]);
            }
        }
    }
}

/// Stepping back and forward keeps what `kept` names.
pub proof fn lemma_history_steps(a: AppView)
    ensures
        kept(a, a.undone().0),
        kept(a, a.redone().0),
{
    lemma_undone(a);
    lemma_redone(a);
}

/// A change comes to the same whether the board is noted for undo before it
/// or after it.
pub proof fn lemma_noted_first(a: AppView, req: RequestView)
    requires
        req.changes(),
    ensures
        a.applied(req).0.undo == a.undo,
        a.applied(req).0.redo == a.redo,
        a.noted().applied(req).1 == a.applied(req).1,
        a.noted().applied(req).0 == (AppView {
            undo: a.noted().undo,
            redo: a.noted().redo,
            ..a.applied(req).0
        }),
{
    reveal(AppView::applied);
    let (n, b) = (a.noted(), a.applied(req).0);
    let c = AppView { undo: n.undo, redo: n.redo, ..b };
    match req {
        RequestView::Place { .. } => assert(n.applied(req).0 == c),
        RequestView::SetText { .. } => assert(n.applied(req).0 == c),
        RequestView::SetRect { .. } => assert(n.applied(req).0 == c),
        RequestView::SetColor { .. } => assert(n.applied(req).0 == c),
        RequestView::SetShape { .. } => assert(n.applied(req).0 == c),
        RequestView::Connect { .. } => assert(n.applied(req).0 == c),
        RequestView::Delete { .. } => assert(n.applied(req).0 == c),
        RequestView::SetLabel { .. } => assert(n.applied(req).0 == c),
        RequestView::SetEdgeColor { .. } => assert(n.applied(req).0 == c),
        RequestView::SetEdgeEnds { .. } => assert(n.applied(req).0 == c),
        RequestView::SetEdgeSides { .. } => assert(n.applied(req).0 == c),
        RequestView::DeleteEdge { .. } => assert(n.applied(req).0 == c),
        RequestView::Reattach { .. } => assert(n.applied(req).0 == c),
        _ => {},
    }
}

/// Every request keeps what `kept` names. A refused one changes nothing at
/// all.
pub proof fn lemma_dispatch_keeps(a: AppView, req: RequestView)
    requires
        req.needs_id() ==> a.canvas.next_id < u64::MAX,
    ensures
        kept(a, a.dispatched(req).0),
        !(req is Undo || req is Redo || req.needs_id()) ==> a.dispatched(req).0.canvas.next_id
            == a.canvas.next_id,
        req.needs_id() ==> a.dispatched(req).0.canvas.next_id <= a.canvas.next_id + 1,
        a.dispatched(req).1 is Err ==> a.dispatched(req).0 == a,
{
    lemma_noted(a);
    if req.changes() && a.applied(req).1 is Ok {
        lemma_noted_first(a, req);
        lemma_applied(a.noted(), req);
    } else {
        lemma_applied(a, req);
    }
}

/// Undo right after a change that was made gives the board back as it was
/// before the change. After a refused request, which changes nothing, it
/// steps back through the last change before that.
pub proof fn lemma_undo_steps_back(a: AppView, req: RequestView)
    requires
        req.changes(),
        a.dispatched(req).1 is Ok,
    ensures
        a.dispatched(req).0.undone().1,
        a.dispatched(req).0.undone().0.canvas == a.canvas,
{
    lemma_noted_first(a, req);
    let full = a.undo.push(a.canvas);
    assert(limited(full).last() == a.canvas);
    assert(a.noted().undo.len() > 0);
    assert(a.dispatched(req).0.undo == a.noted().undo);
}

/// Redo right after an undo gives the board back as it was before the undo,
/// and the history with it.
pub proof fn lemma_redo_steps_forward(a: AppView)
    requires
        a.undo.len() > 0,
    ensures
        a.undone().0.redone().1,
        a.undone().0.redone().0.canvas == a.canvas,
        a.undone().0.redone().0.undo == a.undo,
        a.undone().0.redone().0.redo == a.redo,
{
    let b = a.undone().0;
    assert(b.redo.last() == a.canvas);
    assert(b.redo.drop_last() =~= a.redo);
    assert(b.undo.push(b.canvas) =~= a.undo);
}

/// Undo right after a redo gives the board back as it was before the redo.
pub proof fn lemma_undo_after_redo(a: AppView)
    requires
        a.redo.len() > 0,
    ensures
        a.redone().0.undone().1,
        a.redone().0.undone().0.canvas == a.canvas,
        a.redone().0.undone().0.undo == a.undo,
        a.redone().0.undone().0.redo == a.redo,
{
    let b = a.redone().0;
    assert(b.undo.last() == a.canvas);
    assert(b.undo.drop_last() =~= a.undo);
    assert(b.redo.push(b.canvas) =~= a.redo);
}

/// A change that was made can no longer be redone over: it clears what was
/// undone.
pub proof fn lemma_change_clears_redo(a: AppView, req: RequestView)
    requires
        req.changes(),
        a.dispatched(req).1 is Ok,
    ensures
        a.dispatched(req).0.redo.len() == 0,
        !a.dispatched(req).0.redone().1,
{
    lemma_noted_first(a, req);
}

/// Selecting, asking for the state and saving never touch the board or its
/// history.
pub proof fn lemma_queries_leave_the_board(a: AppView, req: RequestView)
    requires
        req is Select || req is State || req is Save,
    ensures
        a.dispatched(req).0.canvas == a.canvas,
        a.dispatched(req).0.undo == a.undo,
        a.dispatched(req).0.redo == a.redo,
        a.dispatched(req).0.pending == a.pending,
        a.dispatched(req).1 is Ok,
{
    reveal(AppView::applied);
}

/// A placed box takes an id that nothing on the board had, and is found
/// under it, empty.
pub proof fn lemma_placed_box_is_new(
    a: AppView,
    x: i32,
    y: i32,
    w: Option<u16>,
    h: Option<u16>,
)
    requires
        a.wf(),
        a.canvas.next_id < u64::MAX,
    ensures
        ({
            let (b, reply) = a.dispatched(RequestView::Place { x, y, w, h });
            &&& reply == Ok::<ResponseView, Seq<char>>(
                ResponseView::Placed { id: a.canvas.next() },
            )
            &&& !a.canvas.has_node(a.canvas.next())
            &&& !a.canvas.has_edge(a.canvas.next())
            &&& b.canvas.node(a.canvas.next()) == Some(
                new_text(
                    a.canvas.next(),
                    place_rect(x, y, w, h),
                ),
            )
        }),
{
    reveal(AppView::applied);
    lemma_next_is_fresh(a.canvas);
    let c = a.canvas;
    let d = c.placed(place_rect(x, y, w, h));
    assert(d.nodes.drop_last() =~= c.nodes);
}

/// After a box is deleted it is gone, and no connector touches it.
pub proof fn lemma_delete_leaves_no_connector(a: AppView, id: Seq<char>)
    ensures
        ({
            let b = a.dispatched(RequestView::Delete { id }).0;
            &&& !b.canvas.has_node(id)
            &&& b.selected != Some(SelectedView::Node(id))
            &&& forall|i: int|
                0 <= i < b.canvas.edges.len() ==> (#[trigger] b.canvas.edges[i]).from != id
                    && b.canvas.edges[i].to != id
        }),
{
    reveal(AppView::applied);
    let b = a.dispatched(RequestView::Delete { id }).0;
    let c = a.canvas;
    lemma_find_node(b.canvas.nodes, id);
    assert forall|i: int| 0 <= i < b.canvas.nodes.len() implies (#[trigger] b.canvas.nodes[i]).id
        != id by {
        c.nodes.lemma_filter_pred(not_node(id), i);
    }
    assert forall|i: int| 0 <= i < b.canvas.edges.len() implies (
    #[trigger] b.canvas.edges[i]).from != id && b.canvas.edges[i].to != id by {
        c.edges.lemma_filter_pred(not_touching(id), i);
    }
}

/// A change that is made notes the board that it was made on behind all that
/// was noted before; past a hundred, the oldest is forgotten.
pub proof fn lemma_history_keeps_the_newest(a: AppView, req: RequestView, i: int)
    requires
        req.changes(),
        a.dispatched(req).1 is Ok,
        0 <= i < a.undo.len(),
    ensures
        ({
            let b = a.dispatched(req).0;
            &&& b.undo.last() == a.canvas
            &&& a.undo.len() < 100 ==> b.undo.len() == a.undo.len() + 1 && b.undo[i] == a.undo[i]
            &&& a.undo.len() == 100 ==> b.undo.len() == 100 && (i > 0 ==> b.undo[i - 1]
                == a.undo[i])
        }),
{
    lemma_noted_first(a, req);
}

} // verus!

//! The merge state stays in step with the board: every request that changes
//! a box or a connector mirrors it.

use vstd::prelude::*;

use crate::app::{edge_syncs, touching, AppView, RequestView, SyncView, UNDO_LIMIT};
use crate::app_laws::lemma_noted_first;
use crate::collab::{edge_entry, edge_of_entry, node_entry, node_of_entry, CollabView, Fields};
use crate::model::{
    find_edge, find_node, lemma_find_edge, lemma_find_node, lemma_next_is_fresh, new_edge,
    new_text, not_edge, not_node, not_touching, place_rect, CanvasView, EdgeView, KindView,
    NodeView,
};
use crate::sync::{
    edge_of_fields, fields_of_edge, fields_of_node, holds_none, link_syncs, mirrored,
    node_of_fields, node_syncs, opened, put_edges, put_nodes, seeding, shows_edges, shows_nodes,
};
use crate::sync_laws::{lemma_put_edges, lemma_put_nodes};

verus! {

/// Whether an entry of the merge state stands for a box: it was written
/// from the box, or the box was read from it.
pub open spec fn node_mirrors(n: NodeView, entry: Fields) -> bool {
    entry == node_entry(fields_of_node(n)) || n == node_of_fields(n.id, node_of_entry(entry))
}

/// Whether an entry of the merge state stands for a connector.
pub open spec fn edge_mirrors(e: EdgeView, entry: Fields) -> bool {
    entry == edge_entry(fields_of_edge(e)) || e == edge_of_fields(e.id, edge_of_entry(entry))
}

/// Whether the merge state has the box of an id if and only if the board
/// does, and stands for it.
pub open spec fn node_in_step(c: CanvasView, m: CollabView, id: Seq<char>) -> bool {
    match c.node(id) {
        Some(n) => m.nodes.contains_key(id) && m.nodes[id] is Some && node_mirrors(
            n,
            m.nodes[id]->0,
        ),
        None => !(m.nodes.contains_key(id) && m.nodes[id] is Some),
    }
}

/// Whether the merge state has the connector of an id if and only if the
/// board does, and stands for it.
pub open spec fn edge_in_step(c: CanvasView, m: CollabView, id: Seq<char>) -> bool {
    match c.edge(id) {
        Some(e) => m.edges.contains_key(id) && m.edges[id] is Some && edge_mirrors(
            e,
            m.edges[id]->0,
        ),
        None => !(m.edges.contains_key(id) && m.edges[id] is Some),
    }
}

/// Whether the merge state stands for the board, box by box and connector
/// by connector.
pub open spec fn in_step(c: CanvasView, m: CollabView) -> bool {
    &&& forall|id: Seq<char>| #[trigger] node_in_step(c, m, id)
    &&& forall|id: Seq<char>| #[trigger] edge_in_step(c, m, id)
}

/// Whether no two boxes have the same id.
pub open spec fn distinct_nodes(nodes: Seq<NodeView>) -> bool {
    forall|i: int, j: int|
        0 <= i < j < nodes.len() ==> (#[trigger] nodes[i]).id != (#[trigger] nodes[j]).id
}

/// Whether no two connectors have the same id.
pub open spec fn distinct_edges(edges: Seq<EdgeView>) -> bool {
    forall|i: int, j: int|
        0 <= i < j < edges.len() ==> (#[trigger] edges[i]).id != (#[trigger] edges[j]).id
}

impl CanvasView {
    /// Whether an id names one box and one connector at most.
    pub open spec fn distinct(self) -> bool {
        distinct_nodes(self.nodes) && distinct_edges(self.edges)
    }
}

impl AppView {
    /// Whether ids are distinct on the board, and on every board that undo
    /// and redo can bring back.
    pub open spec fn distinct(self) -> bool {
        &&& self.canvas.distinct()
        &&& forall|i: int| 0 <= i < self.undo.len() ==> (#[trigger] self.undo[i]).distinct()
        &&& forall|i: int| 0 <= i < self.redo.len() ==> (#[trigger] self.redo[i]).distinct()
    }

    /// Whether the merge state stands for the board once what is still to
    /// be mirrored is mirrored.
    pub open spec fn in_step(self) -> bool {
        self.collab is Some ==> in_step(
            self.canvas,
            mirrored(self.collab->0, self.canvas, self.pending),
        )
    }
}

/// Whether mirroring a list writes the box of an id.
pub open spec fn node_listed(list: Seq<SyncView>, id: Seq<char>) -> bool {
    list.contains(SyncView::Node(id)) || list.contains(SyncView::All)
}

/// Whether mirroring a list writes the connector of an id.
pub open spec fn edge_listed(list: Seq<SyncView>, id: Seq<char>) -> bool {
    list.contains(SyncView::Edge(id)) || list.contains(SyncView::All)
}

proof fn lemma_contains_last(list: Seq<SyncView>, x: SyncView)
    requires
        list.len() > 0,
    ensures
        list.contains(x) == (list.drop_last().contains(x) || list.last() == x),
{
    if list.contains(x) {
        let i = choose|i: int| 0 <= i < list.len() && list[i] == x;
        if i < list.len() - 1 {
            assert(list.drop_last()[i] == x);
        }
    }
    if list.drop_last().contains(x) {
        let i = choose|i: int| 0 <= i < list.drop_last().len() && list.drop_last()[i] == x;
        assert(list[i] == x);
    }
    if list.last() == x {
        assert(list[list.len() - 1] == x);
    }
}

/// What mirroring a list leaves of one box: what the board has if the list
/// names it, else what was there.
proof fn lemma_mirrored_node(m: CollabView, c: CanvasView, list: Seq<SyncView>, id: Seq<char>)
    requires
        c.distinct(),
    ensures
        ({
            let after = mirrored(m, c, list).nodes;
            if node_listed(list, id) {
                match c.node(id) {
                    Some(n) => after.contains_key(id) && after[id] == Some(
                        node_entry(fields_of_node(n)),
                    ),
                    None => !(after.contains_key(id) && after[id] is Some),
                }
            } else {
                &&& after.contains_key(id) == m.nodes.contains_key(id)
                &&& m.nodes.contains_key(id) ==> after[id] == m.nodes[id]
            }
        }),
    decreases list.len(),
{
    if list.len() > 0 {
        let rest = list.drop_last();
        lemma_mirrored_node(m, c, rest, id);
        lemma_contains_last(list, SyncView::Node(id));
        lemma_contains_last(list, SyncView::All);
        lemma_find_node(c.nodes, id);
        let before = mirrored(m, c, rest);
        if list.last() is All {
            lemma_put_nodes(before.nodes, c.nodes, id);
            let put = put_nodes(before.nodes, c.nodes);
            if let Some(i) = find_node(c.nodes, id) {
                let k = choose|k: int|
                    0 <= k < c.nodes.len() && (#[trigger] c.nodes[k]).id == id && put[id] == Some(
                        node_entry(fields_of_node(c.nodes[k])),
                    );
                assert(c.nodes[i].id == c.nodes[k].id);
                assert(i == k);
            }
        }
    }
}

/// What mirroring a list leaves of one connector.
proof fn lemma_mirrored_edge(m: CollabView, c: CanvasView, list: Seq<SyncView>, id: Seq<char>)
    requires
        c.distinct(),
    ensures
        ({
            let after = mirrored(m, c, list).edges;
            if edge_listed(list, id) {
                match c.edge(id) {
                    Some(e) => after.contains_key(id) && after[id] == Some(
                        edge_entry(fields_of_edge(e)),
                    ),
                    None => !(after.contains_key(id) && after[id] is Some),
                }
            } else {
                &&& after.contains_key(id) == m.edges.contains_key(id)
                &&& m.edges.contains_key(id) ==> after[id] == m.edges[id]
            }
        }),
    decreases list.len(),
{
    if list.len() > 0 {
        let rest = list.drop_last();
        lemma_mirrored_edge(m, c, rest, id);
        lemma_contains_last(list, SyncView::Edge(id));
        lemma_contains_last(list, SyncView::All);
        lemma_find_edge(c.edges, id);
        let before = mirrored(m, c, rest);
        if list.last() is All {
            lemma_put_edges(before.edges, c.edges, id);
            let put = put_edges(before.edges, c.edges);
            if let Some(i) = find_edge(c.edges, id) {
                let k = choose|k: int|
                    0 <= k < c.edges.len() && (#[trigger] c.edges[k]).id == id && put[id] == Some(
                        edge_entry(fields_of_edge(c.edges[k])),
                    );
                assert(c.edges[i].id == c.edges[k].id);
                assert(i == k);
            }
        }
    }
}

/// Whether a board differs from another at most in what a list names.
pub open spec fn differs_in(c: CanvasView, d: CanvasView, list: Seq<SyncView>) -> bool {
    &&& forall|id: Seq<char>| #[trigger] d.node(id) != c.node(id) ==> node_listed(list, id)
    &&& forall|id: Seq<char>| #[trigger] d.edge(id) != c.edge(id) ==> edge_listed(list, id)
}

/// A change keeps the step if what it changes is named for mirroring.
proof fn lemma_change_keeps_step(
    m: CollabView,
    c: CanvasView,
    list: Seq<SyncView>,
    d: CanvasView,
    more: Seq<SyncView>,
)
    requires
        in_step(c, mirrored(m, c, list)),
        c.distinct(),
        d.distinct(),
        differs_in(c, d, more),
    ensures
        in_step(d, mirrored(m, d, list + more)),
{
    let all = list + more;
    assert forall|id: Seq<char>| #[trigger] node_in_step(d, mirrored(m, d, all), id) by {
        lemma_mirrored_node(m, d, all, id);
        lemma_mirrored_node(m, c, list, id);
        lemma_both_contain(list, more, SyncView::Node(id));
        lemma_both_contain(list, more, SyncView::All);
        assert(node_in_step(c, mirrored(m, c, list), id));
        assert(d.node(id) != c.node(id) ==> node_listed(more, id));
    }
    assert forall|id: Seq<char>| #[trigger] edge_in_step(d, mirrored(m, d, all), id) by {
        lemma_mirrored_edge(m, d, all, id);
        lemma_mirrored_edge(m, c, list, id);
        lemma_both_contain(list, more, SyncView::Edge(id));
        lemma_both_contain(list, more, SyncView::All);
        assert(edge_in_step(c, mirrored(m, c, list), id));
        assert(d.edge(id) != c.edge(id) ==> edge_listed(more, id));
    }
}

proof fn lemma_both_contain(list: Seq<SyncView>, more: Seq<SyncView>, x: SyncView)
    ensures
        (list + more).contains(x) == (list.contains(x) || more.contains(x)),
{
    let all = list + more;
    if all.contains(x) {
        let i = choose|i: int| 0 <= i < all.len() && all[i] == x;
        if i < list.len() {
            assert(list[i] == x);
        } else {
            assert(more[i - list.len()] == x);
        }
    }
    if list.contains(x) {
        let i = choose|i: int| 0 <= i < list.len() && list[i] == x;
        assert(all[i] == x);
    }
    if more.contains(x) {
        let i = choose|i: int| 0 <= i < more.len() && more[i] == x;
        assert(all[list.len() + i] == x);
    }
}

/// Replacing a box by another with the same id changes no other box.
proof fn lemma_with_node(c: CanvasView, id: Seq<char>, node: NodeView)
    requires
        c.distinct(),
        c.has_node(id) ==> node.id == id,
    ensures
        c.with_node(id, node).distinct(),
        differs_in(c, c.with_node(id, node), seq![SyncView::Node(id)]),
{
    let d = c.with_node(id, node);
    let more = seq![SyncView::Node(id)];
    lemma_find_node(c.nodes, id);
    assert forall|other: Seq<char>| #[trigger] d.node(other) != c.node(other) implies node_listed(
        more,
        other,
    ) by {
        lemma_find_node(c.nodes, other);
        lemma_find_node(d.nodes, other);
        if other == id {
            assert(more[0] == SyncView::Node(other));
        } else if let Some(k) = find_node(c.nodes, id) {
            if let Some(i) = find_node(c.nodes, other) {
                assert(d.nodes[i] == c.nodes[i]);
            }
            if let Some(j) = find_node(d.nodes, other) {
                assert(d.nodes[j] == c.nodes[j]);
            }
        }
    }
    if let Some(k) = find_node(c.nodes, id) {
        assert forall|i: int, j: int| 0 <= i < j < d.nodes.len() implies (#[trigger] d.nodes[i]).id
            != (#[trigger] d.nodes[j]).id by {
            assert(c.nodes[i].id != c.nodes[j].id);
        }
    }
}

/// Replacing a connector by another with the same id changes no other.
proof fn lemma_with_edge(c: CanvasView, id: Seq<char>, edge: EdgeView)
    requires
        c.distinct(),
        c.has_edge(id) ==> edge.id == id,
    ensures
        c.with_edge(id, edge).distinct(),
        differs_in(c, c.with_edge(id, edge), seq![SyncView::Edge(id)]),
{
    let d = c.with_edge(id, edge);
    let more = seq![SyncView::Edge(id)];
    lemma_find_edge(c.edges, id);
    assert forall|other: Seq<char>| #[trigger] d.edge(other) != c.edge(other) implies edge_listed(
        more,
        other,
    ) by {
        lemma_find_edge(c.edges, other);
        lemma_find_edge(d.edges, other);
        if other == id {
            assert(more[0] == SyncView::Edge(other));
        } else if let Some(k) = find_edge(c.edges, id) {
            if let Some(i) = find_edge(c.edges, other) {
                assert(d.edges[i] == c.edges[i]);
            }
            if let Some(j) = find_edge(d.edges, other) {
                assert(d.edges[j] == c.edges[j]);
            }
        }
    }
    if let Some(k) = find_edge(c.edges, id) {
        assert forall|i: int, j: int| 0 <= i < j < d.edges.len() implies (#[trigger] d.edges[i]).id
            != (#[trigger] d.edges[j]).id by {
            assert(c.edges[i].id != c.edges[j].id);
        }
    }
}

/// What a filter leaves of one box.
pub(crate) proof fn lemma_filtered_nodes(
    nodes: Seq<NodeView>,
    pred: spec_fn(NodeView) -> bool,
    id: Seq<char>,
)
    requires
        distinct_nodes(nodes),
    ensures
        distinct_nodes(nodes.filter(pred)),
        ({
            let left = nodes.filter(pred);
            match find_node(nodes, id) {
                Some(i) => if pred(nodes[i]) {
                    find_node(left, id) is Some && left[find_node(left, id)->0] == nodes[i]
                } else {
                    find_node(left, id) is None
                },
                None => find_node(left, id) is None,
            }
        }),
    decreases nodes.len(),
{
    reveal(Seq::filter);
    if nodes.len() > 0 {
        let rest = nodes.drop_last();
        let last = nodes.last();
        let left = rest.filter(pred);
        assert(distinct_nodes(rest)) by {
            assert forall|i: int, j: int| 0 <= i < j < rest.len() implies (#[trigger] rest[i]).id
                != (#[trigger] rest[j]).id by {
                assert(nodes[i].id != nodes[j].id);
            }
        }
        lemma_filtered_nodes(rest, pred, id);
        lemma_find_node(rest, id);
        lemma_find_node(left, id);
        if let Some(i) = find_node(rest, id) {
            assert(nodes[i].id != nodes[nodes.len() - 1].id);
        }
        if pred(last) {
            assert(left.push(last).drop_last() =~= left);
            assert forall|i: int, j: int| 0 <= i < j < left.push(last).len() implies (
            #[trigger] left.push(last)[i]).id != (#[trigger] left.push(last)[j]).id by {
                if j == left.len() {
                    assert(left.contains(left[i]));
                    rest.lemma_filter_contains_rev(pred, left[i]);
                    let k = choose|k: int| 0 <= k < rest.len() && rest[k] == left[i];
                    assert(nodes[k].id != nodes[nodes.len() - 1].id);
                }
            }
        }
    }
}

/// What a filter leaves of one connector.
proof fn lemma_filtered_edges(
    edges: Seq<EdgeView>,
    pred: spec_fn(EdgeView) -> bool,
    id: Seq<char>,
)
    requires
        distinct_edges(edges),
    ensures
        distinct_edges(edges.filter(pred)),
        ({
            let left = edges.filter(pred);
            match find_edge(edges, id) {
                Some(i) => if pred(edges[i]) {
                    find_edge(left, id) is Some && left[find_edge(left, id)->0] == edges[i]
                } else {
                    find_edge(left, id) is None
                },
                None => find_edge(left, id) is None,
            }
        }),
    decreases edges.len(),
{
    reveal(Seq::filter);
    if edges.len() > 0 {
        let rest = edges.drop_last();
        let last = edges.last();
        let left = rest.filter(pred);
        assert(distinct_edges(rest)) by {
            assert forall|i: int, j: int| 0 <= i < j < rest.len() implies (#[trigger] rest[i]).id
                != (#[trigger] rest[j]).id by {
                assert(edges[i].id != edges[j].id);
            }
        }
        lemma_filtered_edges(rest, pred, id);
        lemma_find_edge(rest, id);
        lemma_find_edge(left, id);
        if let Some(i) = find_edge(rest, id) {
            assert(edges[i].id != edges[edges.len() - 1].id);
        }
        if pred(last) {
            assert(left.push(last).drop_last() =~= left);
            assert forall|i: int, j: int| 0 <= i < j < left.push(last).len() implies (
            #[trigger] left.push(last)[i]).id != (#[trigger] left.push(last)[j]).id by {
                if j == left.len() {
                    assert(left.contains(left[i]));
                    rest.lemma_filter_contains_rev(pred, left[i]);
                    let k = choose|k: int| 0 <= k < rest.len() && rest[k] == left[i];
                    assert(edges[k].id != edges[edges.len() - 1].id);
                }
            }
        }
    }
}

/// A new box changes no other.
proof fn lemma_placed(c: CanvasView, d: CanvasView, n: NodeView)
    requires
        c.distinct(),
        d.nodes == c.nodes.push(n),
        d.edges == c.edges,
        !c.has_node(n.id),
    ensures
        d.distinct(),
        differs_in(c, d, seq![SyncView::Node(n.id)]),
{
    let more = seq![SyncView::Node(n.id)];
    assert(d.nodes.drop_last() =~= c.nodes);
    lemma_find_node(c.nodes, n.id);
    assert forall|other: Seq<char>| #[trigger] d.node(other) != c.node(other) implies node_listed(
        more,
        other,
    ) by {
        assert(more[0] == SyncView::Node(n.id));
        lemma_find_node(c.nodes, other);
    }
}

/// A new connector changes no other.
proof fn lemma_connected(c: CanvasView, d: CanvasView, e: EdgeView)
    requires
        c.distinct(),
        d.edges == c.edges.push(e),
        d.nodes == c.nodes,
        !c.has_edge(e.id),
    ensures
        d.distinct(),
        differs_in(c, d, seq![SyncView::Edge(e.id)]),
{
    let more = seq![SyncView::Edge(e.id)];
    assert(d.edges.drop_last() =~= c.edges);
    lemma_find_edge(c.edges, e.id);
    assert forall|other: Seq<char>| #[trigger] d.edge(other) != c.edge(other) implies edge_listed(
        more,
        other,
    ) by {
        assert(more[0] == SyncView::Edge(e.id));
        lemma_find_edge(c.edges, other);
    }
}

/// Every connector that touches a box is among those that touch it.
proof fn lemma_touching(edges: Seq<EdgeView>, id: Seq<char>, k: int)
    requires
        0 <= k < edges.len(),
        edges[k].from == id || edges[k].to == id,
    ensures
        touching(edges, id).contains(edges[k].id),
    decreases edges.len(),
{
    let rest = edges.drop_last();
    let before = touching(rest, id);
    if k < rest.len() {
        lemma_touching(rest, id, k);
        let i = choose|i: int| 0 <= i < before.len() && before[i] == rest[k].id;
        assert(touching(edges, id)[i] == edges[k].id);
    } else {
        assert(touching(edges, id)[before.len() as int] == edges[k].id);
    }
}

/// Deleting a box changes only it and the connectors that touch it.
proof fn lemma_deleted(c: CanvasView, id: Seq<char>)
    requires
        c.distinct(),
    ensures
        c.without_node(id).distinct(),
        differs_in(
            c,
            c.without_node(id),
            seq![SyncView::Node(id)] + edge_syncs(touching(c.edges, id)),
        ),
{
    let d = c.without_node(id);
    let gone = edge_syncs(touching(c.edges, id));
    let more = seq![SyncView::Node(id)] + gone;
    lemma_filtered_nodes(c.nodes, not_node(id), id);
    lemma_filtered_edges(c.edges, not_touching(id), id);
    assert forall|other: Seq<char>| #[trigger] d.node(other) != c.node(other) implies node_listed(
        more,
        other,
    ) by {
        lemma_filtered_nodes(c.nodes, not_node(id), other);
        lemma_find_node(c.nodes, other);
        assert(more[0] == SyncView::Node(id));
    }
    assert forall|other: Seq<char>| #[trigger] d.edge(other) != c.edge(other) implies edge_listed(
        more,
        other,
    ) by {
        lemma_filtered_edges(c.edges, not_touching(id), other);
        lemma_find_edge(c.edges, other);
        let k = find_edge(c.edges, other)->0;
        lemma_touching(c.edges, id, k);
        let t = touching(c.edges, id);
        let i = choose|i: int| 0 <= i < t.len() && t[i] == other;
        assert(gone[i] == SyncView::Edge(other));
        assert(more[i + 1] == SyncView::Edge(other));
    }
}

/// Deleting a connector changes only it.
proof fn lemma_edge_deleted(c: CanvasView, id: Seq<char>)
    requires
        c.distinct(),
    ensures
        c.without_edge(id).distinct(),
        differs_in(c, c.without_edge(id), seq![SyncView::Edge(id)]),
{
    let d = c.without_edge(id);
    let more = seq![SyncView::Edge(id)];
    lemma_filtered_edges(c.edges, not_edge(id), id);
    assert forall|other: Seq<char>| #[trigger] d.edge(other) != c.edge(other) implies edge_listed(
        more,
        other,
    ) by {
        lemma_filtered_edges(c.edges, not_edge(id), other);
        lemma_find_edge(c.edges, other);
        assert(more[0] == SyncView::Edge(id));
    }
}

/// Whether a state comes from another by a change that is named for
/// mirroring.
spec fn stepped(a: AppView, b: AppView) -> bool {
    &&& b.collab == a.collab
    &&& b.canvas.distinct()
    &&& exists|more: Seq<SyncView>|
        b.pending == a.pending + more && #[trigger] differs_in(a.canvas, b.canvas, more)
}

proof fn lemma_stepped(a: AppView, b: AppView)
    requires
        stepped(a, b),
        a.in_step(),
        a.canvas.distinct(),
    ensures
        b.in_step(),
{
    if a.collab is Some {
        let more = choose|more: Seq<SyncView>|
            b.pending == a.pending + more && #[trigger] differs_in(a.canvas, b.canvas, more);
        lemma_change_keeps_step(a.collab->0, a.canvas, a.pending, b.canvas, more);
    }
}

proof fn lemma_stays(a: AppView, b: AppView)
    requires
        a.canvas.distinct(),
        b.collab == a.collab,
        b.pending == a.pending,
        b.canvas == a.canvas,
    ensures
        stepped(a, b),
{
    let none = Seq::<SyncView>::empty();
    assert(a.pending + none =~= a.pending);
    assert(differs_in(a.canvas, b.canvas, none));
}

proof fn lemma_node_stepped(a: AppView, id: Seq<char>, node: NodeView)
    requires
        a.canvas.distinct(),
        a.canvas.has_node(id) ==> node.id == id,
    ensures
        stepped(a, a.changed_node(id, node).0),
{
    let b = a.changed_node(id, node).0;
    if a.canvas.has_node(id) {
        let more = seq![SyncView::Node(id)];
        lemma_with_node(a.canvas, id, node);
        assert(a.pending.push(SyncView::Node(id)) =~= a.pending + more);
        assert(differs_in(a.canvas, b.canvas, more));
    } else {
        lemma_stays(a, b);
    }
}

proof fn lemma_edge_stepped(a: AppView, id: Seq<char>, edge: EdgeView)
    requires
        a.canvas.distinct(),
        a.canvas.has_edge(id) ==> edge.id == id,
    ensures
        stepped(a, a.changed_edge(id, edge).0),
{
    let b = a.changed_edge(id, edge).0;
    if a.canvas.has_edge(id) {
        let more = seq![SyncView::Edge(id)];
        lemma_with_edge(a.canvas, id, edge);
        assert(a.pending.push(SyncView::Edge(id)) =~= a.pending + more);
        assert(differs_in(a.canvas, b.canvas, more));
    } else {
        lemma_stays(a, b);
    }
}

/// Bringing back another board keeps the step: everything is named.
proof fn lemma_brought_back(a: AppView, b: AppView)
    requires
        b.collab == a.collab,
        b.canvas.distinct(),
        b.pending == a.pending.push(SyncView::All),
    ensures
        stepped(a, b),
{
    let more = seq![SyncView::All];
    assert(more[0] == SyncView::All);
    assert(a.pending.push(SyncView::All) =~= a.pending + more);
    assert(differs_in(a.canvas, b.canvas, more));
}

proof fn lemma_applied_in_step(a: AppView, req: RequestView)
    requires
        a.canvas.wf(),
        a.distinct(),
        req.needs_id() ==> a.canvas.next_id < u64::MAX,
    ensures
        stepped(a, a.applied(req).0),
{
    reveal(AppView::applied);
    let c = a.canvas;
    let b = a.applied(req).0;
    match req {
        RequestView::Place { x, y, w, h } => {
            lemma_next_is_fresh(c);
            lemma_placed(c, b.canvas, new_text(c.next(), place_rect(x, y, w, h)));
            assert(b.pending =~= a.pending + seq![SyncView::Node(c.next())]);
        },
        RequestView::SetText { id, text } => {
            lemma_find_node(c.nodes, id);
            if c.has_node(id) {
                let node = c.node(id)->0;
                let new = if node.kind is Text {
                    NodeView { kind: KindView::Text(text), ..node }
                } else {
                    node
                };
                lemma_node_stepped(a, id, new);
                assert(c.with_node(id, new) =~= b.canvas);
            } else {
                lemma_stays(a, b);
            }
        },
        RequestView::SetRect { id, .. } => {
            lemma_same_change(a, b, id);
        },
        RequestView::SetColor { id, .. } => {
            lemma_same_change(a, b, id);
        },
        RequestView::SetShape { id, .. } => {
            lemma_same_change(a, b, id);
        },
        RequestView::Connect { from, to } => {
            if c.has_node(from) && c.has_node(to) {
                lemma_next_is_fresh(c);
                lemma_connected(c, b.canvas, new_edge(c.next(), from, to));
                assert(b.pending =~= a.pending + seq![SyncView::Edge(c.next())]);
            } else {
                lemma_stays(a, b);
            }
        },
        RequestView::Delete { id } => {
            lemma_deleted(c, id);
            let more = seq![SyncView::Node(id)] + edge_syncs(touching(c.edges, id));
            assert(b.pending =~= a.pending + more);
        },
        RequestView::SetLabel { id, .. } => {
            lemma_same_edge_change(a, b, id);
        },
        RequestView::SetEdgeColor { id, .. } => {
            lemma_same_edge_change(a, b, id);
        },
        RequestView::SetEdgeEnds { id, .. } => {
            lemma_same_edge_change(a, b, id);
        },
        RequestView::SetEdgeSides { id, .. } => {
            lemma_same_edge_change(a, b, id);
        },
        RequestView::DeleteEdge { id } => {
            lemma_edge_deleted(c, id);
            assert(b.pending =~= a.pending + seq![SyncView::Edge(id)]);
        },
        RequestView::Reattach { id, .. } => {
            lemma_same_edge_change(a, b, id);
            if b == a {
                lemma_stays(a, b);
            }
        },
        RequestView::Undo => {
            if a.undo.len() > 0 {
                assert(a.undo[a.undo.len() - 1] == b.canvas);
                lemma_brought_back(a, b);
            } else {
                lemma_stays(a, b);
            }
        },
        RequestView::Redo => {
            if a.redo.len() > 0 {
                assert(a.redo[a.redo.len() - 1] == b.canvas);
                lemma_brought_back(a, b);
            } else {
                lemma_stays(a, b);
            }
        },
        _ => lemma_stays(a, b),
    }
}

proof fn lemma_same_change(a: AppView, b: AppView, id: Seq<char>)
    requires
        a.canvas.distinct(),
    ensures
        forall|node: NodeView|
            (a.canvas.has_node(id) ==> node.id == a.canvas.node(id)->0.id) && b
                == #[trigger] a.changed_node(id, node).0 ==> stepped(a, b),
{
    lemma_find_node(a.canvas.nodes, id);
    assert forall|node: NodeView|
        (a.canvas.has_node(id) ==> node.id == a.canvas.node(id)->0.id) && b
            == #[trigger] a.changed_node(id, node).0 implies stepped(a, b) by {
        lemma_node_stepped(a, id, node);
    }
}

proof fn lemma_same_edge_change(a: AppView, b: AppView, id: Seq<char>)
    requires
        a.canvas.distinct(),
    ensures
        forall|edge: EdgeView|
            (a.canvas.has_edge(id) ==> edge.id == a.canvas.edge(id)->0.id) && b
                == #[trigger] a.changed_edge(id, edge).0 ==> stepped(a, b),
{
    lemma_find_edge(a.canvas.edges, id);
    assert forall|edge: EdgeView|
        (a.canvas.has_edge(id) ==> edge.id == a.canvas.edge(id)->0.id) && b
            == #[trigger] a.changed_edge(id, edge).0 implies stepped(a, b) by {
        lemma_edge_stepped(a, id, edge);
    }
}

proof fn lemma_noted_distinct(a: AppView)
    requires
        a.distinct(),
    ensures
        a.noted().distinct(),
{
    let b = a.noted();
    let full = a.undo.push(a.canvas);
    assert forall|i: int| 0 <= i < b.undo.len() implies (#[trigger] b.undo[i]).distinct() by {
        if full.len() > UNDO_LIMIT {
            assert(b.undo[i] == full[i + 1]);
            if i + 1 < a.undo.len() {
                assert(full[i + 1] == a.undo[i + 1]);
            }
        } else if i < a.undo.len() {
            assert(b.undo[i] == a.undo[i]);
        }
    }
}

/// Every request keeps the merge state in step with the board, and ids
/// distinct. Nothing that a request changes is left out of the merge state,
/// and nothing that it leaves alone is written over there.
pub proof fn lemma_dispatch_keeps_step(a: AppView, req: RequestView)
    requires
        a.wf(),
        a.distinct(),
        a.in_step(),
        req.needs_id() ==> a.canvas.next_id < u64::MAX,
    ensures
        a.dispatched(req).0.in_step(),
        a.dispatched(req).0.distinct(),
{
    let n = a.noted();
    let b = a.dispatched(req).0;
    lemma_noted_distinct(a);
    if req.changes() && a.applied(req).1 is Ok {
        lemma_noted_first(a, req);
        lemma_applied_in_step(n, req);
        lemma_stepped(n, b);
    } else {
        lemma_applied_in_step(a, req);
        lemma_stepped(a, b);
    }
    reveal(AppView::applied);
    if req is Undo {
        assert forall|i: int| 0 <= i < b.undo.len() implies (#[trigger] b.undo[i]).distinct() by {
            assert(b.undo[i] == a.undo[i]);
        }
        assert forall|i: int| 0 <= i < b.redo.len() implies (#[trigger] b.redo[i]).distinct() by {
            if i < a.redo.len() {
                assert(b.redo[i] == a.redo[i]);
            }
        }
    } else if req is Redo {
        assert forall|i: int| 0 <= i < b.undo.len() implies (#[trigger] b.undo[i]).distinct() by {
            if i < a.undo.len() {
                assert(b.undo[i] == a.undo[i]);
            }
        }
        assert forall|i: int| 0 <= i < b.redo.len() implies (#[trigger] b.redo[i]).distinct() by {
            assert(b.redo[i] == a.redo[i]);
        }
    }
}

/// A board that shows the merge state is in step with it, whatever is still
/// to be mirrored.
pub proof fn lemma_shown_board_is_in_step(c: CanvasView, m: CollabView, pending: Seq<SyncView>)
    requires
        shows_nodes(c.nodes, m.nodes),
        shows_edges(c.edges, m.edges),
    ensures
        c.distinct(),
        in_step(c, mirrored(m, c, pending)),
{
    assert forall|id: Seq<char>| #[trigger] node_in_step(c, mirrored(m, c, pending), id) by {
        lemma_find_node(c.nodes, id);
        lemma_mirrored_node(m, c, pending, id);
    }
    assert forall|id: Seq<char>| #[trigger] edge_in_step(c, mirrored(m, c, pending), id) by {
        lemma_find_edge(c.edges, id);
        lemma_mirrored_edge(m, c, pending, id);
    }
}

/// A board is in step with its merge state from the start, whichever of the
/// two it was opened from.
pub proof fn lemma_opened_board_is_in_step(file: CanvasView, m: CollabView, c: CanvasView)
    requires
        file.distinct(),
        opened(file, Some(m), c),
    ensures
        c.distinct(),
        in_step(c, mirrored(m, c, seeding(file, Some(m)))),
{
    let pending = seeding(file, Some(m));
    let nodes = if holds_none(m.nodes) {
        node_syncs(file.nodes)
    } else {
        Seq::empty()
    };
    let edges = if holds_none(m.edges) {
        link_syncs(file.edges)
    } else {
        Seq::empty()
    };
    assert forall|id: Seq<char>| #[trigger] node_in_step(c, mirrored(m, c, pending), id) by {
        lemma_find_node(c.nodes, id);
        lemma_mirrored_node(m, c, pending, id);
        lemma_both_contain(nodes, edges, SyncView::Node(id));
        lemma_both_contain(nodes, edges, SyncView::All);
        if holds_none(m.nodes) && c.node(id) is Some {
            let k = find_node(c.nodes, id)->0;
            assert(nodes[k] == SyncView::Node(id));
        }
    }
    assert forall|id: Seq<char>| #[trigger] edge_in_step(c, mirrored(m, c, pending), id) by {
        lemma_find_edge(c.edges, id);
        lemma_mirrored_edge(m, c, pending, id);
        lemma_both_contain(nodes, edges, SyncView::Edge(id));
        lemma_both_contain(nodes, edges, SyncView::All);
        if holds_none(m.edges) && c.edge(id) is Some {
            let k = find_edge(c.edges, id)->0;
            assert(edges[k] == SyncView::Edge(id));
        }
    }
}

/// Once what was to be mirrored is mirrored, the merge state itself stands
/// for the board.
pub proof fn lemma_mirrored_board_is_in_step(a: AppView)
    requires
        a.in_step(),
        a.collab is Some,
    ensures
        ({
            let after = mirrored(a.collab->0, a.canvas, a.pending);
            let b = AppView { pending: Seq::empty(), collab: Some(after), ..a };
            in_step(b.canvas, after) && b.in_step()
        }),
{
}

/// No local change is left out of a merge: whenever another writer's state
/// can be merged in, every box and connector of the board has its value in
/// the document that it is merged into, and what is gone from the board is
/// gone from there.
pub proof fn lemma_local_changes_are_merged(a: AppView)
    requires
        a.in_step(),
        a.pullable(),
    ensures
        in_step(a.canvas, a.collab->0),
{
}

} // verus!

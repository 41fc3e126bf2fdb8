//! What the merge state gives back of a board.

use vstd::prelude::*;
use yrs::Doc;

use crate::app::{end_name, end_of, SyncView};
use crate::canvas_io::{color_storable, lemma_names, lemma_opt_color};
use crate::collab::{
    carries, doc_client, doc_clock, doc_is_new, edge_entry, edge_of_entry, lemma_edge_reads_back,
    lemma_node_reads_back, merge_of, merged, node_entry, node_of_entry, state_of, CollabView,
    Entries,
};
use crate::model::{
    find_edge, find_node, lemma_find_edge, lemma_find_node, shape_of, CanvasView, CellAnchor,
    EdgeEnd, EdgeView, KindView, NodeView, Shape,
};
use crate::sidecar::{lemma_new_document_takes_any_state, not_ahead, readable, stories_in};
use crate::sync::{
    edge_of_fields, fields_of_edge, fields_of_node, kind_name, kind_of_fields, mirrored_all,
    mirrored_one, node_of_fields, opened, put_edges, put_nodes, shows_edges, shows_nodes,
};

verus! {

/// Whether a box survives the merge state: it has a size, its color does,
/// and a group has no background and no empty label.
pub open spec fn node_merges(n: NodeView) -> bool {
    &&& n.rect.width >= 1
    &&& n.rect.height >= 1
    &&& color_storable(n.color)
    &&& n.kind matches KindView::Group { label, background, background_style } ==> {
        &&& background is None
        &&& background_style is None
        &&& label matches Some(l) ==> l.len() > 0
    }
}

/// Whether an anchor survives the merge state: it names a row or a column.
pub open spec fn anchor_merges(a: Option<CellAnchor>) -> bool {
    a matches Some(a) ==> {
        &&& a.row is Some || a.col is Some
        &&& a.row matches Some(n) ==> n <= i64::MAX
        &&& a.col matches Some(n) ==> n <= i64::MAX
    }
}

/// Whether a connector survives the merge state.
pub open spec fn edge_merges(e: EdgeView) -> bool {
    color_storable(e.color) && anchor_merges(e.from_anchor) && anchor_merges(e.to_anchor)
}

proof fn lemma_kind_names()
    ensures
        forall|k: KindView|
            ((#[trigger] kind_name(k)) == "file"@ <==> k is File) && (kind_name(k) == "link"@ <==> k
                is Link) && (kind_name(k) == "group"@ <==> k is Group),
        shape_of("rounded"@) == Shape::Rounded,
        shape_of("rectangle"@) == Shape::Rectangle,
        forall|e: EdgeEnd| end_of(#[trigger] end_name(e)) == e,
{
    reveal_strlit("text");
    reveal_strlit("file");
    reveal_strlit("link");
    reveal_strlit("group");
    assert("text"@[0] == 't' && "file"@[0] == 'f' && "link"@[0] == 'l' && "group"@[0] == 'g');
    reveal_strlit("rounded");
    reveal_strlit("rectangle");
    assert("rounded"@.len() == 7 && "rectangle"@.len() == 9);
    reveal_strlit("none");
    reveal_strlit("arrow");
    assert("none"@.len() == 4 && "arrow"@.len() == 5);
}

/// A box that is written to the merge state reads back as it was.
pub proof fn lemma_node_merges_back(n: NodeView)
    requires
        node_merges(n),
    ensures
        node_of_fields(n.id, node_of_entry(node_entry(fields_of_node(n)))) == n,
{
    lemma_kind_names();
    lemma_opt_color(n.color);
    lemma_node_reads_back(fields_of_node(n));
    let f = fields_of_node(n);
    match n.kind {
        KindView::Text(_) => {
            assert(kind_name(n.kind) == f.kind);
        },
        KindView::File { .. } => {},
        KindView::Link(_) => {
            assert(kind_name(n.kind) == f.kind);
        },
        KindView::Group { .. } => {
            assert(kind_name(n.kind) == f.kind);
        },
    }
    assert(kind_of_fields(f) == n.kind);
}

/// A connector that is written to the merge state reads back as it was.
pub proof fn lemma_edge_merges_back(e: EdgeView)
    requires
        edge_merges(e),
    ensures
        edge_of_fields(e.id, edge_of_entry(edge_entry(fields_of_edge(e)))) == e,
{
    lemma_kind_names();
    lemma_names();
    lemma_opt_color(e.color);
    lemma_edge_reads_back(fields_of_edge(e));
}

/// Mirroring one box writes no entry but its own, and no connector.
pub proof fn lemma_mirroring_a_node_leaves_the_rest(
    m: CollabView,
    c: CanvasView,
    id: Seq<char>,
    other: Seq<char>,
)
    requires
        other != id,
    ensures
        ({
            let after = mirrored_one(m, c, SyncView::Node(id));
            &&& after.nodes.contains_key(other) == m.nodes.contains_key(other)
            &&& m.nodes.contains_key(other) ==> after.nodes[other] == m.nodes[other]
            &&& after.edges == m.edges
        }),
{
}

/// Mirroring one connector writes no entry but its own, and no box.
pub proof fn lemma_mirroring_an_edge_leaves_the_rest(
    m: CollabView,
    c: CanvasView,
    id: Seq<char>,
    other: Seq<char>,
)
    requires
        other != id,
    ensures
        ({
            let after = mirrored_one(m, c, SyncView::Edge(id));
            &&& after.edges.contains_key(other) == m.edges.contains_key(other)
            &&& m.edges.contains_key(other) ==> after.edges[other] == m.edges[other]
            &&& after.nodes == m.nodes
        }),
{
}

pub(crate) proof fn lemma_put_nodes(entries: Entries, nodes: Seq<NodeView>, id: Seq<char>)
    ensures
        put_nodes(entries, nodes).contains_key(id) == (entries.contains_key(id) || find_node(
            nodes,
            id,
        ) is Some),
        find_node(nodes, id) is None && entries.contains_key(id) ==> put_nodes(
            entries,
            nodes,
        )[id] == entries[id],
        find_node(nodes, id) is Some ==> exists|k: int|
            0 <= k < nodes.len() && (#[trigger] nodes[k]).id == id && put_nodes(entries, nodes)[id]
                == Some(node_entry(fields_of_node(nodes[k]))),
    decreases nodes.len(),
{
    if nodes.len() > 0 {
        let rest = nodes.drop_last();
        lemma_put_nodes(entries, rest, id);
        if nodes.last().id == id {
            assert(nodes[nodes.len() - 1].id == id);
        } else if find_node(rest, id) is Some {
            let k = choose|k: int|
                0 <= k < rest.len() && (#[trigger] rest[k]).id == id && put_nodes(
                    entries,
                    rest,
                )[id] == Some(node_entry(fields_of_node(rest[k])));
            assert(nodes[k] == rest[k]);
        }
    }
}

pub(crate) proof fn lemma_put_edges(entries: Entries, edges: Seq<EdgeView>, id: Seq<char>)
    ensures
        put_edges(entries, edges).contains_key(id) == (entries.contains_key(id) || find_edge(
            edges,
            id,
        ) is Some),
        find_edge(edges, id) is None && entries.contains_key(id) ==> put_edges(
            entries,
            edges,
        )[id] == entries[id],
        find_edge(edges, id) is Some ==> exists|k: int|
            0 <= k < edges.len() && (#[trigger] edges[k]).id == id && put_edges(entries, edges)[id]
                == Some(edge_entry(fields_of_edge(edges[k]))),
    decreases edges.len(),
{
    if edges.len() > 0 {
        let rest = edges.drop_last();
        lemma_put_edges(entries, rest, id);
        if edges.last().id == id {
            assert(edges[edges.len() - 1].id == id);
        } else if find_edge(rest, id) is Some {
            let k = choose|k: int|
                0 <= k < rest.len() && (#[trigger] rest[k]).id == id && put_edges(
                    entries,
                    rest,
                )[id] == Some(edge_entry(fields_of_edge(rest[k])));
            assert(edges[k] == rest[k]);
        }
    }
}

/// Mirroring the whole board leaves its boxes in the merge state, and no
/// others, whatever another writer had put there: what undo and redo rely
/// on.
pub proof fn lemma_full_mirror_shows_the_boxes(m: CollabView, c: CanvasView)
    requires
        forall|i: int| 0 <= i < c.nodes.len() ==> node_merges(#[trigger] c.nodes[i]),
        forall|i: int, j: int|
            0 <= i < j < c.nodes.len() ==> (#[trigger] c.nodes[i]).id != (#[trigger] c.nodes[j]).id,
    ensures
        shows_nodes(c.nodes, mirrored_all(m, c).nodes),
{
    let put = put_nodes(m.nodes, c.nodes);
    let after = mirrored_all(m, c).nodes;
    assert forall|k: int| 0 <= k < c.nodes.len() implies after.contains_key(
        (#[trigger] c.nodes[k]).id,
    ) && after[c.nodes[k].id] is Some && c.nodes[k] == node_of_fields(
        c.nodes[k].id,
        node_of_entry(after[c.nodes[k].id]->0),
    ) by {
        let id = c.nodes[k].id;
        lemma_put_nodes(m.nodes, c.nodes, id);
        lemma_find_node(c.nodes, id);
        let j = choose|j: int|
            0 <= j < c.nodes.len() && (#[trigger] c.nodes[j]).id == id && put[id] == Some(
                node_entry(fields_of_node(c.nodes[j])),
            );
        assert(j == k);
        lemma_node_merges_back(c.nodes[k]);
    }
    assert forall|id: Seq<char>| #[trigger]
        after.contains_key(id) && after[id] is Some implies exists|k: int|
        0 <= k < c.nodes.len() && (#[trigger] c.nodes[k]).id == id by {
        lemma_find_node(c.nodes, id);
        let k = find_node(c.nodes, id)->0;
        assert(c.nodes[k].id == id);
    }
}

/// Mirroring the whole board leaves its connectors in the merge state, and
/// no others.
pub proof fn lemma_full_mirror_shows_the_connectors(m: CollabView, c: CanvasView)
    requires
        forall|i: int| 0 <= i < c.edges.len() ==> edge_merges(#[trigger] c.edges[i]),
        forall|i: int, j: int|
            0 <= i < j < c.edges.len() ==> (#[trigger] c.edges[i]).id != (#[trigger] c.edges[j]).id,
    ensures
        shows_edges(c.edges, mirrored_all(m, c).edges),
{
    let put = put_edges(m.edges, c.edges);
    let after = mirrored_all(m, c).edges;
    assert forall|k: int| 0 <= k < c.edges.len() implies after.contains_key(
        (#[trigger] c.edges[k]).id,
    ) && after[c.edges[k].id] is Some && c.edges[k] == edge_of_fields(
        c.edges[k].id,
        edge_of_entry(after[c.edges[k].id]->0),
    ) by {
        let id = c.edges[k].id;
        lemma_put_edges(m.edges, c.edges, id);
        lemma_find_edge(c.edges, id);
        let j = choose|j: int|
            0 <= j < c.edges.len() && (#[trigger] c.edges[j]).id == id && put[id] == Some(
                edge_entry(fields_of_edge(c.edges[j])),
            );
        assert(j == k);
        lemma_edge_merges_back(c.edges[k]);
    }
    assert forall|id: Seq<char>| #[trigger]
        after.contains_key(id) && after[id] is Some implies exists|k: int|
        0 <= k < c.edges.len() && (#[trigger] c.edges[k]).id == id by {
        lemma_find_edge(c.edges, id);
        let k = find_edge(c.edges, id)->0;
        assert(c.edges[k].id == id);
    }
}

proof fn lemma_same_boxes(a: Seq<NodeView>, b: Seq<NodeView>, entries: Entries)
    requires
        shows_nodes(a, entries),
        shows_nodes(b, entries),
    ensures
        a.to_set().subset_of(b.to_set()),
{
    assert forall|n: NodeView| a.to_set().contains(n) implies b.to_set().contains(n) by {
        let k = choose|k: int| 0 <= k < a.len() && a[k] == n;
        assert(entries.contains_key(a[k].id) && entries[a[k].id] is Some);
        let j = choose|j: int| 0 <= j < b.len() && (#[trigger] b[j]).id == a[k].id;
        assert(b[j] == n);
    }
}

proof fn lemma_same_connectors(a: Seq<EdgeView>, b: Seq<EdgeView>, entries: Entries)
    requires
        shows_edges(a, entries),
        shows_edges(b, entries),
    ensures
        a.to_set().subset_of(b.to_set()),
{
    assert forall|e: EdgeView| a.to_set().contains(e) implies b.to_set().contains(e) by {
        let k = choose|k: int| 0 <= k < a.len() && a[k] == e;
        assert(entries.contains_key(a[k].id) && entries[a[k].id] is Some);
        let j = choose|j: int| 0 <= j < b.len() && (#[trigger] b[j]).id == a[k].id;
        assert(b[j] == e);
    }
}

/// A board whose merge state was written to the sidecar is there again when
/// it is opened from that by a new writer: the same boxes and the same
/// connectors, whatever the board's own file has, in no particular order. A
/// sidecar without boxes leaves the boxes to the file, and so with
/// connectors.
pub proof fn lemma_reopened_board_is_the_same(
    shown: CanvasView,
    state: CollabView,
    bytes: Seq<u8>,
    fresh: Doc,
    file: CanvasView,
    opening: CollabView,
    canvas: CanvasView,
)
    requires
        shows_nodes(shown.nodes, state.nodes),
        shows_edges(shown.edges, state.edges),
        carries(bytes, state.nodes, state.edges),
        readable(bytes),
        doc_is_new(fresh),
        state_of(fresh) == seq![0u8, 0u8],
        doc_clock(fresh) == 0,
        not_ahead(stories_in(bytes)->0, doc_client(fresh), 0),
        opening.nodes == merged(fresh, bytes).1,
        opening.edges == merged(fresh, bytes).2,
        opened(file, Some(opening), canvas),
    ensures
        merged(fresh, bytes).0,
        if shown.nodes.len() > 0 {
            canvas.nodes.to_set() == shown.nodes.to_set()
        } else {
            canvas.nodes == file.nodes
        },
        if shown.edges.len() > 0 {
            canvas.edges.to_set() == shown.edges.to_set()
        } else {
            canvas.edges == file.edges
        },
{
    lemma_new_document_takes_any_state(doc_client(fresh), bytes);
    assert(merge_of(fresh, bytes) == (true, state.nodes, state.edges));
    if shown.nodes.len() > 0 {
        let first = shown.nodes[0];
        assert(state.nodes.contains_key(first.id) && state.nodes[first.id] is Some);
        lemma_same_boxes(shown.nodes, canvas.nodes, state.nodes);
        lemma_same_boxes(canvas.nodes, shown.nodes, state.nodes);
        assert(canvas.nodes.to_set() =~= shown.nodes.to_set());
    }
    if shown.edges.len() > 0 {
        let first = shown.edges[0];
        assert(state.edges.contains_key(first.id) && state.edges[first.id] is Some);
        lemma_same_connectors(shown.edges, canvas.edges, state.edges);
        lemma_same_connectors(canvas.edges, shown.edges, state.edges);
        assert(canvas.edges.to_set() =~= shown.edges.to_set());
    }
}

} // verus!

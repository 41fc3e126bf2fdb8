//! The board against its merge state: opening it, picking up another
//! writer's changes, and mirroring one's own.

use vstd::prelude::*;
use yrs::Doc;

use crate::app::{
    edge_end_to_string, end_name, end_of, parse_edge_end, sync_views, App, AppView, Mode, ModeView,
    Sync, SyncView,
};
use crate::app_laws::lemma_noted;
use crate::canvas_io::{
    canvas_of, count_ids, counted, from_file, opt_side_name, opt_side_of, read_rect, read_side,
    write_side, FileRoot, FileView,
};
use crate::collab::{
    carries, collab_view, doc_clock, edge_entry, edge_of_entry, is_edge_snapshot, is_node_snapshot,
    merge_of, merged, node_entry, node_of_entry, state_of, Collab, CollabView, EdgeFields,
    EdgeFieldsView, Entries, NodeFields, NodeFieldsView, EDGE_CHANGES, NODE_CHANGES,
};
use crate::geometry::{max, to_i32, to_u16, Rect};
use crate::model::{
    edge_views, empty_canvas, find_edge, find_node, node_views,
    opt_color_of, opt_color_text, parse_color, shape_name, shape_of, write_color, Canvas,
    CanvasView, CellAnchor, Edge, EdgeView, KindView, Node, NodeKind, NodeView, Shape, WorldRect,
};
use crate::pointer::{moving, new_drag, DragView, EdgeMap, HitMap};
use crate::sidecar::{has_small_size, is_small, readable, CLOCK_END};
use crate::table::{cells, Table};
use crate::target::{Selected, SelectedView};
use crate::text::{clone_opt, opt_view, same_str};

verus! {

/// The name of what a box holds.
pub open spec fn kind_name(k: KindView) -> Seq<char> {
    match k {
        KindView::Text(_) => "text"@,
        KindView::File { .. } => "file"@,
        KindView::Link(_) => "link"@,
        KindView::Group { .. } => "group"@,
    }
}

/// A box's own content.
pub open spec fn kind_text(k: KindView) -> Seq<char> {
    match k {
        KindView::Text(t) => t,
        KindView::File { path, .. } => path,
        KindView::Link(url) => url,
        KindView::Group { label, .. } => match label {
            Some(l) => l,
            None => Seq::empty(),
        },
    }
}

/// A box's fields in the merge state. A group's background is not among
/// them.
pub open spec fn fields_of_node(n: NodeView) -> NodeFieldsView {
    NodeFieldsView {
        x: n.rect.x as i64,
        y: n.rect.y as i64,
        w: n.rect.width as i64,
        h: n.rect.height as i64,
        text: kind_text(n.kind),
        subpath: match n.kind {
            KindView::File { subpath, .. } => subpath,
            _ => None,
        },
        color: opt_color_text(n.color),
        shape: match shape_name(n.shape) {
            Some(s) => s,
            None => "rectangle"@,
        },
        kind: kind_name(n.kind),
    }
}

/// What the box that the fields describe holds.
pub open spec fn kind_of_fields(f: NodeFieldsView) -> KindView {
    if f.kind == "file"@ {
        KindView::File { path: f.text, subpath: f.subpath }
    } else if f.kind == "link"@ {
        KindView::Link(f.text)
    } else if f.kind == "group"@ {
        KindView::Group {
            label: if f.text.len() == 0 {
                None
            } else {
                Some(f.text)
            },
            background: None,
            background_style: None,
        }
    } else {
        KindView::Text(f.text)
    }
}

/// The box that the fields describe.
pub open spec fn node_of_fields(id: Seq<char>, f: NodeFieldsView) -> NodeView {
    NodeView {
        id,
        rect: WorldRect {
            x: to_i32(f.x as int),
            y: to_i32(f.y as int),
            width: max(to_u16(f.w as int) as int, 1) as u16,
            height: max(to_u16(f.h as int) as int, 1) as u16,
        },
        color: opt_color_of(f.color),
        shape: shape_of(f.shape),
        kind: kind_of_fields(f),
    }
}

/// A row or column number as a field, cut to what a field holds.
pub open spec fn index_field(n: Option<usize>) -> Option<i64> {
    match n {
        Some(n) => if n <= i64::MAX {
            Some(n as i64)
        } else {
            Some(i64::MAX)
        },
        None => None,
    }
}

/// A field as a row or column number, none where it can be none.
pub open spec fn field_index(n: Option<i64>) -> Option<usize> {
    match n {
        Some(n) => if 0 <= n <= usize::MAX {
            Some(n as usize)
        } else {
            None
        },
        None => None,
    }
}

/// The row of an anchor.
pub open spec fn anchor_row(a: Option<CellAnchor>) -> Option<i64> {
    match a {
        Some(a) => index_field(a.row),
        None => None,
    }
}

/// The column of an anchor.
pub open spec fn anchor_col(a: Option<CellAnchor>) -> Option<i64> {
    match a {
        Some(a) => index_field(a.col),
        None => None,
    }
}

/// The anchor that a row and a column field make.
pub open spec fn anchor_of_fields(row: Option<i64>, col: Option<i64>) -> Option<CellAnchor> {
    match (field_index(row), field_index(col)) {
        (None, None) => None,
        (row, col) => Some(CellAnchor { row, col }),
    }
}

/// A connector's fields in the merge state.
pub open spec fn fields_of_edge(e: EdgeView) -> EdgeFieldsView {
    EdgeFieldsView {
        from: e.from,
        to: e.to,
        from_side: opt_side_name(e.from_side),
        to_side: opt_side_name(e.to_side),
        from_end: end_name(e.from_end),
        to_end: end_name(e.to_end),
        from_row: anchor_row(e.from_anchor),
        from_col: anchor_col(e.from_anchor),
        to_row: anchor_row(e.to_anchor),
        to_col: anchor_col(e.to_anchor),
        color: opt_color_text(e.color),
        label: e.label,
    }
}

/// The connector that the fields describe.
pub open spec fn edge_of_fields(id: Seq<char>, f: EdgeFieldsView) -> EdgeView {
    EdgeView {
        id,
        from: f.from,
        from_side: opt_side_of(f.from_side),
        from_end: end_of(f.from_end),
        from_anchor: anchor_of_fields(f.from_row, f.from_col),
        to: f.to,
        to_side: opt_side_of(f.to_side),
        to_end: end_of(f.to_end),
        to_anchor: anchor_of_fields(f.to_row, f.to_col),
        color: opt_color_of(f.color),
        label: f.label,
    }
}

/// Whether some boxes are exactly those of the merge state, each once, in
/// any order.
pub open spec fn shows_nodes(nodes: Seq<NodeView>, entries: Entries) -> bool {
    &&& forall|k: int|
        0 <= k < nodes.len() ==> entries.contains_key((#[trigger] nodes[k]).id)
            && entries[nodes[k].id] is Some && nodes[k] == node_of_fields(
            nodes[k].id,
            node_of_entry(entries[nodes[k].id]->0),
        )
    &&& forall|j: int, k: int|
        0 <= j < k < nodes.len() ==> (#[trigger] nodes[j]).id != (#[trigger] nodes[k]).id
    &&& forall|id: Seq<char>| #[trigger]
        entries.contains_key(id) && entries[id] is Some ==> exists|k: int|
            0 <= k < nodes.len() && (#[trigger] nodes[k]).id == id
}

/// Whether some connectors are exactly those of the merge state, each once,
/// in any order.
pub open spec fn shows_edges(edges: Seq<EdgeView>, entries: Entries) -> bool {
    &&& forall|k: int|
        0 <= k < edges.len() ==> entries.contains_key((#[trigger] edges[k]).id)
            && entries[edges[k].id] is Some && edges[k] == edge_of_fields(
            edges[k].id,
            edge_of_entry(entries[edges[k].id]->0),
        )
    &&& forall|j: int, k: int|
        0 <= j < k < edges.len() ==> (#[trigger] edges[j]).id != (#[trigger] edges[k]).id
    &&& forall|id: Seq<char>| #[trigger]
        entries.contains_key(id) && entries[id] is Some ==> exists|k: int|
            0 <= k < edges.len() && (#[trigger] edges[k]).id == id
}

/// Whether the merge state holds no box or no connector at all.
pub open spec fn holds_none(entries: Entries) -> bool {
    forall|id: Seq<char>| #[trigger] entries.contains_key(id) ==> entries[id] is None
}

/// The entries after some boxes are written, one after the other.
pub open spec fn put_nodes(entries: Entries, nodes: Seq<NodeView>) -> Entries
    decreases nodes.len(),
{
    if nodes.len() == 0 {
        entries
    } else {
        put_nodes(entries, nodes.drop_last()).insert(
            nodes.last().id,
            Some(node_entry(fields_of_node(nodes.last()))),
        )
    }
}

/// The entries after some connectors are written, one after the other.
pub open spec fn put_edges(entries: Entries, edges: Seq<EdgeView>) -> Entries
    decreases edges.len(),
{
    if edges.len() == 0 {
        entries
    } else {
        put_edges(entries, edges.drop_last()).insert(
            edges.last().id,
            Some(edge_entry(fields_of_edge(edges.last()))),
        )
    }
}

/// The entries without those of boxes that are not on the board.
pub open spec fn without_stale_nodes(entries: Entries, nodes: Seq<NodeView>) -> Entries {
    entries.restrict(
        Set::new(
            |id: Seq<char>|
                entries.contains_key(id) && (entries[id] is None || find_node(nodes, id) is Some),
        ),
    )
}

/// The entries without those of connectors that are not on the board.
pub open spec fn without_stale_edges(entries: Entries, edges: Seq<EdgeView>) -> Entries {
    entries.restrict(
        Set::new(
            |id: Seq<char>|
                entries.contains_key(id) && (entries[id] is None || find_edge(edges, id) is Some),
        ),
    )
}

/// The merge state after the whole board is mirrored into it.
pub open spec fn mirrored_all(m: CollabView, c: CanvasView) -> CollabView {
    CollabView {
        nodes: without_stale_nodes(put_nodes(m.nodes, c.nodes), c.nodes),
        edges: without_stale_edges(put_edges(m.edges, c.edges), c.edges),
        ..m
    }
}

/// The merge state after one thing is mirrored into it: a box or connector
/// as it is on the board, or its absence.
pub open spec fn mirrored_one(m: CollabView, c: CanvasView, what: SyncView) -> CollabView {
    match what {
        SyncView::Node(id) => match c.node(id) {
            Some(n) => CollabView {
                nodes: m.nodes.insert(id, Some(node_entry(fields_of_node(n)))),
                ..m
            },
            None => CollabView { nodes: m.nodes.remove(id), ..m },
        },
        SyncView::Edge(id) => match c.edge(id) {
            Some(e) => CollabView {
                edges: m.edges.insert(id, Some(edge_entry(fields_of_edge(e)))),
                ..m
            },
            None => CollabView { edges: m.edges.remove(id), ..m },
        },
        SyncView::All => mirrored_all(m, c),
    }
}

/// The merge state after a list of things is mirrored into it, in order.
pub open spec fn mirrored(m: CollabView, c: CanvasView, list: Seq<SyncView>) -> CollabView
    decreases list.len(),
{
    if list.len() == 0 {
        m
    } else {
        mirrored_one(mirrored(m, c, list.drop_last()), c, list.last())
    }
}

/// How many changes mirroring one thing takes at most.
pub open spec fn cost_of(c: CanvasView, what: SyncView) -> nat {
    match what {
        SyncView::Node(_) => NODE_CHANGES as nat,
        SyncView::Edge(_) => EDGE_CHANGES as nat,
        SyncView::All => (NODE_CHANGES * c.nodes.len() + EDGE_CHANGES * c.edges.len()) as nat,
    }
}

/// How many changes mirroring the first `k` things of a list takes at most.
pub open spec fn cost_upto(c: CanvasView, list: Seq<SyncView>, k: int) -> nat
    decreases k,
{
    if k <= 0 {
        0
    } else {
        cost_upto(c, list, k - 1) + cost_of(c, list[k - 1])
    }
}

/// Whether a document can make the changes that mirroring a list takes.
pub open spec fn has_room(doc: Doc, c: CanvasView, list: Seq<SyncView>) -> bool {
    doc_clock(doc) + cost_upto(c, list, list.len() as int) < CLOCK_END
}

proof fn lemma_cost_grows(c: CanvasView, list: Seq<SyncView>, i: int, j: int)
    requires
        i <= j,
    ensures
        cost_upto(c, list, i) <= cost_upto(c, list, j),
    decreases j - i,
{
    if i < j {
        lemma_cost_grows(c, list, i, j - 1);
    }
}

fn kind_fields(kind: &NodeKind) -> (r: (String, String, Option<String>))
    ensures
        r.0@ == kind_name(kind@),
        r.1@ == kind_text(kind@),
        opt_view(r.2) == match kind@ {
            KindView::File { subpath, .. } => subpath,
            _ => None,
        },
{
    match kind {
        NodeKind::Text(t) => ("text".to_owned(), t.clone(), None),
        NodeKind::File { path, subpath } => ("file".to_owned(), path.clone(), clone_opt(subpath)),
        NodeKind::Link(url) => ("link".to_owned(), url.clone(), None),
        NodeKind::Group { label, .. } => match label {
            Some(l) => ("group".to_owned(), l.clone(), None),
            None => {
                let none: String = String::new();
                proof {
                    assert(none@ =~= Seq::empty());
                }
                ("group".to_owned(), none, None)
            },
        },
    }
}

/// A box's fields in the merge state.
pub fn node_fields(node: &Node) -> (r: NodeFields)
    ensures
        r@ == fields_of_node(node@),
{
    let (kind, text, subpath) = kind_fields(&node.kind);
    let shape: String = match node.shape.as_str() {
        Some(s) => s.to_owned(),
        None => "rectangle".to_owned(),
    };
    NodeFields {
        x: node.rect.x as i64,
        y: node.rect.y as i64,
        w: node.rect.width as i64,
        h: node.rect.height as i64,
        text,
        subpath,
        color: write_color(&node.color),
        shape,
        kind,
    }
}

/// The box that the fields describe.
pub fn node_from_fields(id: String, f: NodeFields) -> (r: Node)
    ensures
        r@ == node_of_fields(id@, f@),
{
    let rect: WorldRect = read_rect(f.x, f.y, f.w, f.h);
    let color = parse_color(&f.color);
    let shape: Shape = Shape::parse(f.shape.as_str());
    let kind: NodeKind = if same_str(f.kind.as_str(), "file") {
        NodeKind::File { path: f.text, subpath: f.subpath }
    } else if same_str(f.kind.as_str(), "link") {
        NodeKind::Link(f.text)
    } else if same_str(f.kind.as_str(), "group") {
        proof {
            reveal_strlit("");
            if f.text@.len() == 0 {
                assert(f.text@ =~= ""@);
            }
        }
        let label: Option<String> = if same_str(f.text.as_str(), "") {
            None
        } else {
            Some(f.text)
        };
        NodeKind::Group { label, background: None, background_style: None }
    } else {
        NodeKind::Text(f.text)
    };
    Node { id, rect, color, shape, kind }
}

fn to_field(n: Option<usize>) -> (r: Option<i64>)
    ensures
        r == index_field(n),
{
    match n {
        Some(n) => if n as u64 <= i64::MAX as u64 {
            Some(n as i64)
        } else {
            Some(i64::MAX)
        },
        None => None,
    }
}

fn from_field(n: Option<i64>) -> (r: Option<usize>)
    ensures
        r == field_index(n),
{
    match n {
        Some(n) => if n >= 0 && n as u64 <= usize::MAX as u64 {
            Some(n as usize)
        } else {
            None
        },
        None => None,
    }
}

fn anchor_fields(a: Option<CellAnchor>) -> (r: (Option<i64>, Option<i64>))
    ensures
        r.0 == anchor_row(a),
        r.1 == anchor_col(a),
{
    match a {
        Some(a) => (to_field(a.row), to_field(a.col)),
        None => (None, None),
    }
}

fn anchor_from_fields(row: Option<i64>, col: Option<i64>) -> (r: Option<CellAnchor>)
    ensures
        r == anchor_of_fields(row, col),
{
    let row: Option<usize> = from_field(row);
    let col: Option<usize> = from_field(col);
    if row.is_none() && col.is_none() {
        None
    } else {
        Some(CellAnchor { row, col })
    }
}

/// A connector's fields in the merge state.
pub fn edge_fields(edge: &Edge) -> (r: EdgeFields)
    ensures
        r@ == fields_of_edge(edge@),
{
    let (from_row, from_col) = anchor_fields(edge.from_anchor);
    let (to_row, to_col) = anchor_fields(edge.to_anchor);
    EdgeFields {
        from: edge.from.clone(),
        to: edge.to.clone(),
        from_side: write_side(edge.from_side),
        to_side: write_side(edge.to_side),
        from_end: edge_end_to_string(edge.from_end).to_owned(),
        to_end: edge_end_to_string(edge.to_end).to_owned(),
        from_row,
        from_col,
        to_row,
        to_col,
        color: write_color(&edge.color),
        label: clone_opt(&edge.label),
    }
}

/// The connector that the fields describe.
pub fn edge_from_fields(id: String, f: EdgeFields) -> (r: Edge)
    ensures
        r@ == edge_of_fields(id@, f@),
{
    Edge {
        id,
        from: f.from,
        from_side: read_side(&f.from_side),
        from_end: parse_edge_end(f.from_end.as_str()),
        from_anchor: anchor_from_fields(f.from_row, f.from_col),
        to: f.to,
        to_side: read_side(&f.to_side),
        to_end: parse_edge_end(f.to_end.as_str()),
        to_anchor: anchor_from_fields(f.to_row, f.to_col),
        color: parse_color(&f.color),
        label: f.label,
    }
}

/// The boxes of a snapshot.
fn nodes_from(list: Vec<(String, NodeFields)>, Ghost(entries): Ghost<Entries>) -> (r: Vec<Node>)
    requires
        is_node_snapshot(list@, entries),
    ensures
        r@.len() == list@.len(),
        shows_nodes(node_views(r@), entries),
{
    let ghost all = list@;
    let mut list = list;
    let mut out: Vec<Node> = Vec::new();
    while list.len() > 0
        invariant
            out@.len() + list@.len() == all.len(),
            forall|k: int| 0 <= k < list@.len() ==> #[trigger] list@[k] == all[k + out@.len()],
            forall|k: int|
                0 <= k < out@.len() ==> (#[trigger] out@[k])@ == node_of_fields(
                    all[k].0@,
                    all[k].1@,
                ),
        decreases list@.len(),
    {
        let ghost before = list@;
        let (id, f) = list.remove(0);
        out.push(node_from_fields(id, f));
        proof {
            assert(before[0] == all[out@.len() - 1]);
            assert forall|k: int| 0 <= k < list@.len() implies #[trigger] list@[k] == all[k
                + out@.len()] by {
                assert(list@[k] == before[k + 1]);
            }
        }
    }
    proof {
        let nodes = node_views(out@);
        assert forall|id: Seq<char>| #[trigger]
            entries.contains_key(id) && entries[id] is Some implies exists|k: int|
            0 <= k < nodes.len() && (#[trigger] nodes[k]).id == id by {
            let k = choose|k: int| 0 <= k < all.len() && (#[trigger] all[k]).0@ == id;
            assert(nodes[k].id == id);
        }
        assert forall|j: int, k: int| 0 <= j < k < nodes.len() implies (#[trigger] nodes[j]).id
            != (#[trigger] nodes[k]).id by {
            assert(all[j].0@ != all[k].0@);
        }
        assert forall|k: int| 0 <= k < nodes.len() implies entries.contains_key(
            (#[trigger] nodes[k]).id,
        ) && entries[nodes[k].id] is Some && nodes[k] == node_of_fields(
            nodes[k].id,
            node_of_entry(entries[nodes[k].id]->0),
        ) by {
            assert(entries.contains_key(all[k].0@));
        }
    }
    out
}

/// The connectors of a snapshot.
fn edges_from(list: Vec<(String, EdgeFields)>, Ghost(entries): Ghost<Entries>) -> (r: Vec<Edge>)
    requires
        is_edge_snapshot(list@, entries),
    ensures
        r@.len() == list@.len(),
        shows_edges(edge_views(r@), entries),
{
    let ghost all = list@;
    let mut list = list;
    let mut out: Vec<Edge> = Vec::new();
    while list.len() > 0
        invariant
            out@.len() + list@.len() == all.len(),
            forall|k: int| 0 <= k < list@.len() ==> #[trigger] list@[k] == all[k + out@.len()],
            forall|k: int|
                0 <= k < out@.len() ==> (#[trigger] out@[k])@ == edge_of_fields(
                    all[k].0@,
                    all[k].1@,
                ),
        decreases list@.len(),
    {
        let ghost before = list@;
        let (id, f) = list.remove(0);
        out.push(edge_from_fields(id, f));
        proof {
            assert(before[0] == all[out@.len() - 1]);
            assert forall|k: int| 0 <= k < list@.len() implies #[trigger] list@[k] == all[k
                + out@.len()] by {
                assert(list@[k] == before[k + 1]);
            }
        }
    }
    proof {
        let edges = edge_views(out@);
        assert forall|id: Seq<char>| #[trigger]
            entries.contains_key(id) && entries[id] is Some implies exists|k: int|
            0 <= k < edges.len() && (#[trigger] edges[k]).id == id by {
            let k = choose|k: int| 0 <= k < all.len() && (#[trigger] all[k]).0@ == id;
            assert(edges[k].id == id);
        }
        assert forall|j: int, k: int| 0 <= j < k < edges.len() implies (#[trigger] edges[j]).id
            != (#[trigger] edges[k]).id by {
            assert(all[j].0@ != all[k].0@);
        }
        assert forall|k: int| 0 <= k < edges.len() implies entries.contains_key(
            (#[trigger] edges[k]).id,
        ) && entries[edges[k].id] is Some && edges[k] == edge_of_fields(
            edges[k].id,
            edge_of_entry(entries[edges[k].id]->0),
        ) by {
            assert(entries.contains_key(all[k].0@));
        }
    }
    out
}

/// Writes some boxes, one after the other.
fn write_nodes(collab: &mut Collab, nodes: &Vec<Node>)
    requires
        old(collab)@.sound,
        doc_clock(old(collab).doc) + NODE_CHANGES * nodes@.len() < CLOCK_END,
    ensures
        doc_clock(final(collab).doc) <= doc_clock(old(collab).doc) + NODE_CHANGES * nodes@.len(),
        final(collab)@ == (CollabView {
            nodes: put_nodes(old(collab)@.nodes, node_views(nodes@)),
            ..old(collab)@
        }),
{
    let ghost before = collab@;
    let ghost clock = doc_clock(collab.doc);
    let ghost all = node_views(nodes@);
    let mut i: usize = 0;
    while i < nodes.len()
        invariant
            i <= nodes@.len(),
            before.sound,
            clock + NODE_CHANGES * nodes@.len() < CLOCK_END,
            doc_clock(collab.doc) <= clock + NODE_CHANGES * i,
            all == node_views(nodes@),
            collab@ == (CollabView {
                nodes: put_nodes(before.nodes, all.take(i as int)),
                ..before
            }),
        decreases nodes@.len() - i,
    {
        let fields: NodeFields = node_fields(&nodes[i]);
        collab.set_node(nodes[i].id.as_str(), &fields);
        proof {
            assert(all.take(i + 1).drop_last() =~= all.take(i as int));
            assert(all.take(i + 1).last() == nodes@[i as int]@);
        }
        i += 1;
    }
    proof {
        assert(all.take(all.len() as int) =~= all);
    }
}

/// Writes some connectors, one after the other.
fn write_edges(collab: &mut Collab, edges: &Vec<Edge>)
    requires
        old(collab)@.sound,
        doc_clock(old(collab).doc) + EDGE_CHANGES * edges@.len() < CLOCK_END,
    ensures
        doc_clock(final(collab).doc) <= doc_clock(old(collab).doc) + EDGE_CHANGES * edges@.len(),
        final(collab)@ == (CollabView {
            edges: put_edges(old(collab)@.edges, edge_views(edges@)),
            ..old(collab)@
        }),
{
    let ghost before = collab@;
    let ghost clock = doc_clock(collab.doc);
    let ghost all = edge_views(edges@);
    let mut i: usize = 0;
    while i < edges.len()
        invariant
            i <= edges@.len(),
            before.sound,
            clock + EDGE_CHANGES * edges@.len() < CLOCK_END,
            doc_clock(collab.doc) <= clock + EDGE_CHANGES * i,
            all == edge_views(edges@),
            collab@ == (CollabView {
                edges: put_edges(before.edges, all.take(i as int)),
                ..before
            }),
        decreases edges@.len() - i,
    {
        let fields: EdgeFields = edge_fields(&edges[i]);
        collab.set_edge(edges[i].id.as_str(), &fields);
        proof {
            assert(all.take(i + 1).drop_last() =~= all.take(i as int));
            assert(all.take(i + 1).last() == edges@[i as int]@);
        }
        i += 1;
    }
    proof {
        assert(all.take(all.len() as int) =~= all);
    }
}

/// Drops every box of the merge state that is not on the board.
fn drop_stale_nodes(collab: &mut Collab, canvas: &Canvas)
    requires
        old(collab)@.sound,
    ensures
        doc_clock(final(collab).doc) == doc_clock(old(collab).doc),
        final(collab)@ == (CollabView {
            nodes: without_stale_nodes(old(collab)@.nodes, canvas@.nodes),
            ..old(collab)@
        }),
{
    let ghost before = collab@;
    let ghost entries = before.nodes;
    let list: Vec<(String, NodeFields)> = collab.snapshot();
    let mut i: usize = 0;
    while i < list.len()
        invariant
            i <= list@.len(),
            entries == before.nodes,
            is_node_snapshot(list@, entries),
            collab@.edges == before.edges,
            collab@.mtime == before.mtime,
            collab@.sound && before.sound,
            doc_clock(collab.doc) == doc_clock(old(collab).doc),
            forall|id: Seq<char>| #[trigger]
                collab@.nodes.contains_key(id) ==> entries.contains_key(id) && collab@.nodes[id]
                    == entries[id],
            forall|k: int|
                0 <= k < i ==> collab@.nodes.contains_key((#[trigger] list@[k]).0@) == (find_node(
                    canvas@.nodes,
                    list@[k].0@,
                ) is Some),
            forall|k: int|
                i <= k < list@.len() ==> collab@.nodes.contains_key((#[trigger] list@[k]).0@),
            forall|id: Seq<char>| #[trigger]
                entries.contains_key(id) && entries[id] is None ==> collab@.nodes.contains_key(id),
        decreases list@.len() - i,
    {
        let ghost last = collab@.nodes;
        let id: &str = list[i].0.as_str();
        if canvas.node_index(id).is_none() {
            collab.remove_node(id);
        }
        proof {
            assert(list@[i as int].0@ == id@);
            assert forall|k: int| 0 <= k < list@.len() && k != i implies collab@.nodes.contains_key(
                (#[trigger] list@[k]).0@,
            ) == last.contains_key(list@[k].0@) by {
                if k < i {
                    assert(list@[k].0@ != list@[i as int].0@);
                } else {
                    assert(list@[i as int].0@ != list@[k].0@);
                }
            }
        }
        i += 1;
    }
    proof {
        let want = without_stale_nodes(entries, canvas@.nodes);
        assert forall|id: Seq<char>| collab@.nodes.contains_key(id) == want.contains_key(id) by {
            if entries.contains_key(id) && entries[id] is Some {
                let k = choose|k: int| 0 <= k < list@.len() && (#[trigger] list@[k]).0@ == id;
                assert(collab@.nodes.contains_key(list@[k].0@) == (find_node(
                    canvas@.nodes,
                    list@[k].0@,
                ) is Some));
            }
        }
        assert(collab@.nodes =~= want);
    }
}

/// Drops every connector of the merge state that is not on the board.
fn drop_stale_edges(collab: &mut Collab, canvas: &Canvas)
    requires
        old(collab)@.sound,
    ensures
        doc_clock(final(collab).doc) == doc_clock(old(collab).doc),
        final(collab)@ == (CollabView {
            edges: without_stale_edges(old(collab)@.edges, canvas@.edges),
            ..old(collab)@
        }),
{
    let ghost before = collab@;
    let ghost entries = before.edges;
    let list: Vec<(String, EdgeFields)> = collab.snapshot_edges();
    let mut i: usize = 0;
    while i < list.len()
        invariant
            i <= list@.len(),
            entries == before.edges,
            is_edge_snapshot(list@, entries),
            collab@.nodes == before.nodes,
            collab@.mtime == before.mtime,
            collab@.sound && before.sound,
            doc_clock(collab.doc) == doc_clock(old(collab).doc),
            forall|id: Seq<char>| #[trigger]
                collab@.edges.contains_key(id) ==> entries.contains_key(id) && collab@.edges[id]
                    == entries[id],
            forall|k: int|
                0 <= k < i ==> collab@.edges.contains_key((#[trigger] list@[k]).0@) == (find_edge(
                    canvas@.edges,
                    list@[k].0@,
                ) is Some),
            forall|k: int|
                i <= k < list@.len() ==> collab@.edges.contains_key((#[trigger] list@[k]).0@),
            forall|id: Seq<char>| #[trigger]
                entries.contains_key(id) && entries[id] is None ==> collab@.edges.contains_key(id),
        decreases list@.len() - i,
    {
        let ghost last = collab@.edges;
        let id: &str = list[i].0.as_str();
        if canvas.edge_index(id).is_none() {
            collab.remove_edge(id);
        }
        proof {
            assert(list@[i as int].0@ == id@);
            assert forall|k: int| 0 <= k < list@.len() && k != i implies collab@.edges.contains_key(
                (#[trigger] list@[k]).0@,
            ) == last.contains_key(list@[k].0@) by {
                if k < i {
                    assert(list@[k].0@ != list@[i as int].0@);
                } else {
                    assert(list@[i as int].0@ != list@[k].0@);
                }
            }
        }
        i += 1;
    }
    proof {
        let want = without_stale_edges(entries, canvas@.edges);
        assert forall|id: Seq<char>| collab@.edges.contains_key(id) == want.contains_key(id) by {
            if entries.contains_key(id) && entries[id] is Some {
                let k = choose|k: int| 0 <= k < list@.len() && (#[trigger] list@[k]).0@ == id;
                assert(collab@.edges.contains_key(list@[k].0@) == (find_edge(
                    canvas@.edges,
                    list@[k].0@,
                ) is Some));
            }
        }
        assert(collab@.edges =~= want);
    }
}

/// Mirrors one box as it is on the board, so that another writer's next
/// pull sees it. Only the one that a change touched: a writer with a stale
/// copy of the others must not re-assert it over a fresher edit.
fn sync_node(collab: &mut Collab, canvas: &Canvas, id: &str)
    requires
        old(collab)@.sound,
        doc_clock(old(collab).doc) + NODE_CHANGES < CLOCK_END,
    ensures
        doc_clock(final(collab).doc) <= doc_clock(old(collab).doc) + NODE_CHANGES,
        final(collab)@ == mirrored_one(old(collab)@, canvas@, SyncView::Node(id@)),
{
    match canvas.node(id) {
        Some(node) => {
            let fields: NodeFields = node_fields(node);
            collab.set_node(id, &fields);
        },
        None => collab.remove_node(id),
    }
}

/// Same as `sync_node`, for one connector.
fn sync_edge(collab: &mut Collab, canvas: &Canvas, id: &str)
    requires
        old(collab)@.sound,
        doc_clock(old(collab).doc) + EDGE_CHANGES < CLOCK_END,
    ensures
        doc_clock(final(collab).doc) <= doc_clock(old(collab).doc) + EDGE_CHANGES,
        final(collab)@ == mirrored_one(old(collab)@, canvas@, SyncView::Edge(id@)),
{
    match canvas.edge(id) {
        Some(edge) => {
            let fields: EdgeFields = edge_fields(edge);
            collab.set_edge(id, &fields);
        },
        None => collab.remove_edge(id),
    }
}

/// Mirrors the entire board, overwriting whatever any other entry holds.
/// Only for undo and redo, where the whole point is to snap everything back
/// to a recorded board.
fn resync_collab_full(collab: &mut Collab, canvas: &Canvas)
    requires
        old(collab)@.sound,
        doc_clock(old(collab).doc) + cost_of(canvas@, SyncView::All) < CLOCK_END,
    ensures
        doc_clock(final(collab).doc) <= doc_clock(old(collab).doc) + cost_of(
            canvas@,
            SyncView::All,
        ),
        final(collab)@ == mirrored_all(old(collab)@, canvas@),
{
    write_nodes(collab, &canvas.nodes);
    drop_stale_nodes(collab, canvas);
    write_edges(collab, &canvas.edges);
    drop_stale_edges(collab, canvas);
}

/// Mirrors a list of things, in order.
fn mirror(collab: &mut Collab, canvas: &Canvas, list: &Vec<Sync>)
    requires
        old(collab)@.sound,
        has_room(old(collab).doc, canvas@, sync_views(list@)),
    ensures
        final(collab)@.sound,
        doc_clock(final(collab).doc) < CLOCK_END,
        final(collab)@ == mirrored(old(collab)@, canvas@, sync_views(list@)),
{
    let ghost before = collab@;
    let ghost clock = doc_clock(collab.doc);
    let ghost all = sync_views(list@);
    let mut i: usize = 0;
    proof {
        assert(all.take(all.len() as int) =~= all);
    }
    while i < list.len()
        invariant
            i <= list@.len(),
            all == sync_views(list@),
            collab@ == mirrored(before, canvas@, all.take(i as int)),
            collab@.sound,
            clock + cost_upto(canvas@, all, all.len() as int) < CLOCK_END,
            doc_clock(collab.doc) <= clock + cost_upto(canvas@, all, i as int),
        decreases list@.len() - i,
    {
        proof {
            assert(all.take(i + 1).drop_last() =~= all.take(i as int));
            assert(all.take(i + 1).last() == list@[i as int]@);
            lemma_cost_grows(canvas@, all, i + 1, all.len() as int);
        }
        match &list[i] {
            Sync::Node(id) => sync_node(collab, canvas, id.as_str()),
            Sync::Edge(id) => sync_edge(collab, canvas, id.as_str()),
            Sync::All => resync_collab_full(collab, canvas),
        }
        i += 1;
    }
    proof {
        assert(all.take(all.len() as int) =~= all);
    }
}

/// What was found where a board's file should be.
#[derive(Debug)]
pub enum Loaded {
    /// No file yet.
    New,
    Board(FileRoot),
    /// A file that cannot be read, and why.
    Failed(String),
}

/// What was found, its texts as characters.
pub ghost enum LoadedView {
    New,
    Board(FileView),
    Failed(Seq<char>),
}

impl View for Loaded {
    type V = LoadedView;

    open spec fn view(&self) -> LoadedView {
        match self {
            Loaded::New => LoadedView::New,
            Loaded::Board(root) => LoadedView::Board(root@),
            Loaded::Failed(e) => LoadedView::Failed(e@),
        }
    }
}

/// The board in what was found: an empty one where there is none.
pub open spec fn loaded_canvas(path: Option<Seq<char>>, found: LoadedView) -> CanvasView {
    match (path, found) {
        (Some(_), LoadedView::Board(f)) => canvas_of(f),
        _ => empty_canvas(),
    }
}

/// What is said about what was found.
pub open spec fn loaded_status(path: Option<Seq<char>>, found: LoadedView) -> Seq<char> {
    match path {
        None => Seq::empty(),
        Some(path) => match found {
            LoadedView::New => "new file "@ + path,
            LoadedView::Board(_) => "loaded "@ + path,
            LoadedView::Failed(e) => "failed to load "@ + path + ": "@ + e,
        },
    }
}

/// Whether a board is what opening makes of what was found and of a merge
/// state. A merge state that holds boxes wins over the file; where it holds
/// none the file's are shown, and are still to be put into it. The same goes
/// for connectors.
pub open spec fn opened(
    found: CanvasView,
    state: Option<CollabView>,
    canvas: CanvasView,
) -> bool {
    match state {
        None => canvas == counted(found),
        Some(m) => {
            &&& if holds_none(m.nodes) {
                canvas.nodes == found.nodes
            } else {
                shows_nodes(canvas.nodes, m.nodes)
            }
            &&& if holds_none(m.edges) {
                canvas.edges == found.edges
            } else {
                shows_edges(canvas.edges, m.edges)
            }
            &&& canvas == counted(CanvasView { next_id: found.next_id, ..canvas })
        },
    }
}

/// What is to be mirrored for some boxes.
pub open spec fn node_syncs(nodes: Seq<NodeView>) -> Seq<SyncView> {
    Seq::new(nodes.len(), |i: int| SyncView::Node(nodes[i].id))
}

/// What is to be mirrored for some connectors.
pub open spec fn link_syncs(edges: Seq<EdgeView>) -> Seq<SyncView> {
    Seq::new(edges.len(), |i: int| SyncView::Edge(edges[i].id))
}

/// What is to be mirrored after opening: on the first run for a board what
/// its file already had, so that later merges have a common ancestor.
pub open spec fn seeding(found: CanvasView, state: Option<CollabView>) -> Seq<SyncView> {
    match state {
        None => Seq::empty(),
        Some(m) => (if holds_none(m.nodes) {
            node_syncs(found.nodes)
        } else {
            Seq::empty()
        }) + (if holds_none(m.edges) {
            link_syncs(found.edges)
        } else {
            Seq::empty()
        }),
    }
}

proof fn lemma_no_nodes(list: Seq<(String, NodeFields)>, entries: Entries)
    requires
        is_node_snapshot(list, entries),
    ensures
        holds_none(entries) == (list.len() == 0),
{
    if list.len() > 0 {
        assert(entries.contains_key(list[0].0@) && entries[list[0].0@] is Some);
    }
}

proof fn lemma_no_edges(list: Seq<(String, EdgeFields)>, entries: Entries)
    requires
        is_edge_snapshot(list, entries),
    ensures
        holds_none(entries) == (list.len() == 0),
{
    if list.len() > 0 {
        assert(entries.contains_key(list[0].0@) && entries[list[0].0@] is Some);
    }
}

/// Settles a board against its merge state, and says what of it is to be put
/// into that.
fn settle(canvas: &mut Canvas, collab: &Collab) -> (r: Vec<Sync>)
    requires
        collab@.sound,
    ensures
        opened(
            CanvasView { next_id: final(canvas)@.next_id, ..old(canvas)@ },
            Some(collab@),
            counted(final(canvas)@),
        ),
        final(canvas)@.next_id == old(canvas)@.next_id,
        sync_views(r@) == seeding(old(canvas)@, Some(collab@)),
{
    let ghost m = collab@;
    let ghost found = canvas@;
    let mut out: Vec<Sync> = Vec::new();
    let nodes: Vec<(String, NodeFields)> = collab.snapshot();
    proof {
        lemma_no_nodes(nodes@, m.nodes);
        assert(sync_views(out@) =~= Seq::empty());
    }
    if nodes.len() == 0 {
        let mut i: usize = 0;
        while i < canvas.nodes.len()
            invariant
                i <= canvas.nodes@.len(),
                canvas@ == found,
                sync_views(out@) == node_syncs(found.nodes).take(i as int),
            decreases canvas.nodes@.len() - i,
        {
            let ghost before = sync_views(out@);
            out.push(Sync::Node(canvas.nodes[i].id.clone()));
            proof {
                assert(found.nodes[i as int] == canvas.nodes@[i as int]@);
                assert(sync_views(out@) =~= before.push(node_syncs(found.nodes)[i as int]));
                assert(node_syncs(found.nodes).take(i + 1) =~= before.push(
                    node_syncs(found.nodes)[i as int],
                ));
            }
            i += 1;
        }
        proof {
            assert(node_syncs(found.nodes).take(i as int) =~= node_syncs(found.nodes));
        }
    } else {
        canvas.nodes = nodes_from(nodes, Ghost(m.nodes));
    }
    let ghost first = sync_views(out@);
    let edges: Vec<(String, EdgeFields)> = collab.snapshot_edges();
    proof {
        lemma_no_edges(edges@, m.edges);
        assert(first =~= first + Seq::empty());
    }
    if edges.len() == 0 {
        let mut i: usize = 0;
        proof {
            assert(first + link_syncs(found.edges).take(0) =~= first);
        }
        while i < canvas.edges.len()
            invariant
                i <= canvas.edges@.len(),
                canvas@.edges == found.edges,
                sync_views(out@) == first + link_syncs(found.edges).take(i as int),
            decreases canvas.edges@.len() - i,
        {
            let ghost before = sync_views(out@);
            out.push(Sync::Edge(canvas.edges[i].id.clone()));
            proof {
                assert(found.edges[i as int] == canvas.edges@[i as int]@);
                assert(sync_views(out@) =~= before.push(link_syncs(found.edges)[i as int]));
                assert(first + link_syncs(found.edges).take(i + 1) =~= before.push(
                    link_syncs(found.edges)[i as int],
                ));
            }
            i += 1;
        }
        proof {
            assert(link_syncs(found.edges).take(i as int) =~= link_syncs(found.edges));
        }
    } else {
        canvas.edges = edges_from(edges, Ghost(m.edges));
    }
    out
}

fn load_status(path: &str, found: &Loaded) -> (r: String)
    ensures
        r@ == loaded_status(Some(path@), found@),
{
    match found {
        Loaded::New => {
            let mut s: String = "new file ".to_owned();
            s.append(path);
            s
        },
        Loaded::Board(_) => {
            let mut s: String = "loaded ".to_owned();
            s.append(path);
            s
        },
        Loaded::Failed(e) => {
            let mut s: String = "failed to load ".to_owned();
            s.append(path);
            s.append(": ");
            s.append(e.as_str());
            s
        },
    }
}

/// A new editor's state.
pub open spec fn fresh_app(
    canvas: CanvasView,
    save_path: Option<Seq<char>>,
    status: Seq<char>,
    collab: Option<CollabView>,
    pending: Seq<SyncView>,
) -> AppView {
    AppView {
        canvas,
        drag: DragView::Idle,
        hits: Seq::empty(),
        edge_hits: Seq::empty(),
        selected: None,
        color_picker: None,
        hover_swatch: None,
        hover_cell: None,
        mode: ModeView::Normal,
        editing_text: Seq::empty(),
        table: Seq::empty(),
        should_quit: false,
        save_path,
        status,
        area: Rect { x: 0, y: 0, width: 0, height: 0 },
        camera: (0, 0),
        undo: Seq::empty(),
        redo: Seq::empty(),
        grab: (0, 0),
        resize: None,
        drawing: None,
        press: None,
        last_click: None,
        collab,
        pending,
        wants_save: false,
    }
}

impl AppView {
    /// Whether another writer's changes can be merged in right now: not
    /// mid-gesture, so that no box is yanked out from under a drag and no
    /// keystroke out of an edit, and not before every change made here is in
    /// the merge state.
    pub open spec fn pullable(self) -> bool {
        &&& self.mode is Normal
        &&& !(self.drag is Moving)
        &&& self.drawing is None
        &&& self.collab is Some
        &&& self.pending.len() == 0
    }

    /// Whether a selection is on a board.
    pub open spec fn still_there(canvas: CanvasView, target: Option<SelectedView>) -> bool {
        match target {
            Some(SelectedView::Node(id)) => canvas.has_node(id),
            Some(SelectedView::Edge(id)) => canvas.has_edge(id),
            None => true,
        }
    }
}

impl App {
    /// Opens a board, given what was found at its path and its merge state.
    pub fn new(save_path: Option<String>, found: Loaded, collab: Option<Collab>) -> (r: App)
        requires
            collab_view(collab) matches Some(m) ==> m.sound,
        ensures
            ({
                let path = opt_view(save_path);
                let base = loaded_canvas(path, found@);
                let state = collab_view(collab);
                &&& opened(base, state, r@.canvas)
                &&& r@ == fresh_app(
                    r@.canvas,
                    path,
                    loaded_status(path, found@),
                    state,
                    seeding(base, state),
                )
            }),
            collab matches Some(c) ==> r.collab == Some(c),
            r.wf(),
    {
        let ghost path = opt_view(save_path);
        let mut canvas: Canvas = Canvas::default();
        let mut status: String = String::new();
        proof {
            assert(status@ =~= Seq::empty());
        }
        match &save_path {
            Some(p) => {
                status = load_status(p.as_str(), &found);
                match &found {
                    Loaded::Board(root) => {
                        canvas = from_file(root);
                    },
                    _ => {},
                }
            },
            None => {},
        }
        let ghost base = canvas@;
        let ghost before = collab_view(collab);
        let pending: Vec<Sync> = match &collab {
            Some(c) => settle(&mut canvas, c),
            None => Vec::new(),
        };
        count_ids(&mut canvas);
        let drag = new_drag();
        let hits = HitMap::new();
        let edge_hits = EdgeMap::new();
        let editing_text: String = String::new();
        let editing_table: Table = Vec::new();
        proof {
            assert(base == loaded_canvas(path, found@));
            assert(sync_views(pending@) =~= seeding(base, before));
            assert(editing_text@ =~= Seq::empty());
            assert(cells(editing_table@) =~= Seq::empty());
        }
        let app = App {
            canvas,
            drag,
            hits,
            edge_hits,
            selected: None,
            color_picker: None,
            hover_swatch: None,
            hover_cell: None,
            mode: Mode::Normal,
            editing_text,
            editing_table,
            should_quit: false,
            save_path,
            status,
            canvas_area: Rect { x: 0, y: 0, width: 0, height: 0 },
            camera: (0, 0),
            undo_stack: Vec::new(),
            redo_stack: Vec::new(),
            grab_offset: (0, 0),
            resize_origin: None,
            drawing: None,
            press_on_edge: None,
            last_click: None,
            collab,
            pending,
            wants_save: false,
        };
        proof {
            assert(app@.undo =~= Seq::empty());
            assert(app@.redo =~= Seq::empty());
            assert(app@ =~= fresh_app(
                app@.canvas,
                path,
                loaded_status(path, found@),
                app@.collab,
                seeding(base, before),
            ));
        }
        app
    }

    /// Whether another writer's changes can be merged in right now.
    pub fn can_pull(&self) -> (r: bool)
        ensures
            r == self@.pullable(),
    {
        let idle: bool = match &self.mode {
            Mode::Normal => true,
            _ => false,
        };
        idle && moving(&self.drag).is_none() && self.drawing.is_none() && self.collab.is_some()
            && self.pending.len() == 0
    }

    /// Whether the selection is on the board.
    fn selection_stays(&self) -> (r: bool)
        ensures
            r == AppView::still_there(self@.canvas, self@.selected),
    {
        match &self.selected {
            Some(Selected::Node(id)) => self.canvas.node_index(id.as_str()).is_some(),
            Some(Selected::Edge(id)) => self.canvas.edge_index(id.as_str()).is_some(),
            None => true,
        }
    }

    /// Merges in what another writer left in the sidecar, and shows the
    /// merged board. Every local change is in the merge state by then,
    /// whether or not it has reached the disk, so none is left out of the
    /// merge.
    pub fn pull_collab(&mut self, bytes: &[u8]) -> (r: bool)
        requires
            old(self)@.sound(),
        ensures
            !old(self)@.pullable() ==> !r && final(self)@ == old(self)@,
            old(self)@.pullable() ==> ({
                let before = old(self)@;
                let (taken, nodes, edges) = merged(old(self).collab->0.doc, bytes@);
                let merged = Some(CollabView { nodes, edges, ..before.collab->0 });
                &&& r == taken
                &&& !taken ==> final(self)@ == (AppView { collab: merged, ..before })
                &&& taken ==> {
                    let canvas = final(self)@.canvas;
                    &&& shows_nodes(canvas.nodes, nodes)
                    &&& shows_edges(canvas.edges, edges)
                    &&& canvas == counted(
                        CanvasView { next_id: before.canvas.next_id, ..canvas },
                    )
                    &&& final(self)@ == (AppView {
                        canvas,
                        collab: merged,
                        selected: if AppView::still_there(canvas, before.selected) {
                            before.selected
                        } else {
                            None
                        },
                        status: "merged a change from another writer"@,
                        ..before.noted()
                    })
                }
            }),
            old(self).wf() ==> final(self).wf(),
    {
        if !self.can_pull() {
            return false;
        }
        let ghost before = self@;
        let ghost (taken, entries, links) = merged(self.collab->0.doc, bytes@);
        let (nodes, edges) = match &mut self.collab {
            Some(collab) => {
                if !collab.pull(bytes) {
                    return false;
                }
                (
                    nodes_from(collab.snapshot(), Ghost(entries)),
                    edges_from(collab.snapshot_edges(), Ghost(links)),
                )
            },
            None => {
                return false;
            },
        };
        self.push_undo();
        self.canvas.nodes = nodes;
        self.canvas.edges = edges;
        count_ids(&mut self.canvas);
        if !self.selection_stays() {
            self.selected = None;
        }
        self.status = "merged a change from another writer".to_owned();
        proof {
            lemma_noted(before);
        }
        true
    }

    /// Whether the merge state can make the changes that mirroring what is
    /// still to be mirrored takes.
    fn room_for_pending(&self, clock_left: u64) -> (r: bool)
        ensures
            r == (cost_upto(self@.canvas, self@.pending, self@.pending.len() as int) < clock_left),
    {
        let nodes: u64 = self.canvas.nodes.len() as u64;
        let edges: u64 = self.canvas.edges.len() as u64;
        let whole: u128 = 10 * nodes as u128 + 13 * edges as u128;
        let mut total: u128 = 0;
        let mut i: usize = 0;
        if clock_left == 0 {
            return false;
        }
        while i < self.pending.len()
            invariant
                i <= self.pending@.len(),
                whole == NODE_CHANGES * self@.canvas.nodes.len() + EDGE_CHANGES
                    * self@.canvas.edges.len(),
                whole <= 23 * 0x1_0000_0000_0000_0000,
                total == cost_upto(self@.canvas, self@.pending, i as int),
                total < clock_left,
            decreases self.pending@.len() - i,
        {
            let cost: u128 = match &self.pending[i] {
                Sync::Node(_) => NODE_CHANGES as u128,
                Sync::Edge(_) => EDGE_CHANGES as u128,
                Sync::All => whole,
            };
            proof {
                assert(self@.pending[i as int] == self.pending@[i as int]@);
                lemma_cost_grows(
                    self@.canvas,
                    self@.pending,
                    i + 1,
                    self@.pending.len() as int,
                );
            }
            total = total + cost;
            i += 1;
            if total >= clock_left as u128 {
                return false;
            }
        }
        true
    }

    /// Mirrors what is still to be mirrored into the merge state, after
    /// what another writer left there is merged in, and gives the state to
    /// write to the sidecar. Nothing is mirrored that the clock has no room
    /// for, and no state is given that is too large to be read again.
    pub fn sync_pending(&mut self, incoming: Option<&[u8]>) -> (r: Option<Vec<u8>>)
        requires
            old(self)@.sound(),
        ensures
            ({
                let before = old(self)@;
                let asked = before.collab is Some && before.pending.len() > 0;
                let room = has_room(old(self).collab->0.doc, before.canvas, before.pending);
                let base = match incoming {
                    Some(bytes) => {
                        let (_, nodes, edges) = merged(old(self).collab->0.doc, bytes@);
                        CollabView { nodes, edges, ..before.collab->0 }
                    },
                    None => before.collab->0,
                };
                let after = mirrored(base, before.canvas, before.pending);
                let doc = final(self).collab->0.doc;
                &&& !asked ==> r is None && final(self)@ == (AppView {
                    pending: Seq::empty(),
                    ..before
                })
                &&& asked && !room ==> r is None && final(self)@ == before && final(self).collab
                    == old(self).collab
                &&& asked && room ==> {
                    &&& final(self)@ == (AppView {
                        pending: Seq::empty(),
                        collab: Some(after),
                        ..before
                    })
                    &&& r is Some <==> is_small(state_of(doc))
                    &&& r matches Some(bytes) ==> {
                        &&& bytes@ == state_of(doc)
                        &&& readable(bytes@)
                        &&& merge_of(doc, bytes@) == (true, after.nodes, after.edges)
                        &&& carries(bytes@, after.nodes, after.edges)
                    }
                }
            }),
            final(self).maps_wf() == old(self).maps_wf(),
            old(self).wf() ==> final(self).wf(),
    {
        let room: bool = match &self.collab {
            Some(collab) => {
                let left: u64 = collab.changes_left();
                self.room_for_pending(left)
            },
            None => true,
        };
        if self.pending.len() == 0 || self.collab.is_none() {
            self.pending = Vec::new();
            proof {
                assert(self@.pending =~= Seq::empty());
            }
            return None;
        }
        if !room {
            return None;
        }
        let mut bytes: Vec<u8> = Vec::new();
        match &mut self.collab {
            Some(collab) => {
                match incoming {
                    Some(b) => {
                        let _taken: bool = collab.pull(b);
                    },
                    None => {},
                }
                mirror(collab, &self.canvas, &self.pending);
                bytes = collab.state();
            },
            None => {},
        }
        self.pending = Vec::new();
        proof {
            assert(self@.pending =~= Seq::empty());
        }
        if has_small_size(bytes.as_slice()) {
            Some(bytes)
        } else {
            None
        }
    }
}

} // verus!

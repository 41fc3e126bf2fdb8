//! JSON Canvas boards as they are on disk, converted to and from the live
//! [`Canvas`].

use vstd::prelude::*;

use crate::geometry::{clamp_i32, clamp_u16, max, to_i32, to_u16};
use crate::model::{
    lemma_color_reads_back, lemma_color_writes_back, numbered, opt_color_of, opt_color_text,
    parse_color, past, preset_of, shape_name, shape_of, write_color, Canvas, CanvasView, CellAnchor,
    ColorView, Edge, EdgeEnd, EdgeView, KindView, Node, NodeKind, NodeView, Shape, Side, WorldRect,
};
use crate::text::{
    clone_opt, decimal, decimal_value, is_digit, lemma_decimal_value, opt_view, same_str, to_chars,
};

verus! {

/// A board in the shape that JSON Canvas describes on disk. Also what a
/// request for the state hands back.
#[derive(Debug)]
pub struct FileRoot {
    pub nodes: Vec<FileNode>,
    pub edges: Vec<FileEdge>,
}

#[derive(Debug)]
pub enum FileNode {
    Text {
        id: String,
        x: i64,
        y: i64,
        width: i64,
        height: i64,
        color: Option<String>,
        /// Not part of JSON Canvas: "rounded", left out for a plain
        /// rectangle. Another reader sees a field it does not know and
        /// renders a normal text node.
        shape: Option<String>,
        text: String,
    },
    File {
        id: String,
        x: i64,
        y: i64,
        width: i64,
        height: i64,
        color: Option<String>,
        file: String,
        subpath: Option<String>,
    },
    Link {
        id: String,
        x: i64,
        y: i64,
        width: i64,
        height: i64,
        color: Option<String>,
        url: String,
    },
    Group {
        id: String,
        x: i64,
        y: i64,
        width: i64,
        height: i64,
        color: Option<String>,
        label: Option<String>,
        background: Option<String>,
        background_style: Option<String>,
    },
}

/// Which row and/or column of a table box a connector end lines up with.
/// Not part of JSON Canvas.
#[derive(Debug, Clone, Copy, PartialEq, Eq, Structural)]
pub struct FileAnchor {
    pub row: Option<usize>,
    pub col: Option<usize>,
}

#[derive(Debug)]
pub struct FileEdge {
    pub id: String,
    pub from_node: String,
    pub from_side: Option<String>,
    pub from_end: Option<String>,
    pub from_anchor: Option<FileAnchor>,
    pub to_node: String,
    pub to_side: Option<String>,
    pub to_end: Option<String>,
    pub to_anchor: Option<FileAnchor>,
    pub color: Option<String>,
    pub label: Option<String>,
}

/// A box on disk, its texts as characters. `shape` is none for every kind
/// but text.
pub ghost struct FileNodeView {
    pub id: Seq<char>,
    pub x: i64,
    pub y: i64,
    pub width: i64,
    pub height: i64,
    pub color: Option<Seq<char>>,
    pub shape: Option<Seq<char>>,
    pub kind: KindView,
}

impl View for FileNode {
    type V = FileNodeView;

    open spec fn view(&self) -> FileNodeView {
        match self {
            FileNode::Text { id, x, y, width, height, color, shape, text } => FileNodeView {
                id: id@,
                x: *x,
                y: *y,
                width: *width,
                height: *height,
                color: opt_view(*color),
                shape: opt_view(*shape),
                kind: KindView::Text(text@),
            },
            FileNode::File { id, x, y, width, height, color, file, subpath } => FileNodeView {
                id: id@,
                x: *x,
                y: *y,
                width: *width,
                height: *height,
                color: opt_view(*color),
                shape: None,
                kind: KindView::File { path: file@, subpath: opt_view(*subpath) },
            },
            FileNode::Link { id, x, y, width, height, color, url } => FileNodeView {
                id: id@,
                x: *x,
                y: *y,
                width: *width,
                height: *height,
                color: opt_view(*color),
                shape: None,
                kind: KindView::Link(url@),
            },
            FileNode::Group {
                id,
                x,
                y,
                width,
                height,
                color,
                label,
                background,
                background_style,
            } => FileNodeView {
                id: id@,
                x: *x,
                y: *y,
                width: *width,
                height: *height,
                color: opt_view(*color),
                shape: None,
                kind: KindView::Group {
                    label: opt_view(*label),
                    background: opt_view(*background),
                    background_style: opt_view(*background_style),
                },
            },
        }
    }
}

/// A connector on disk, its texts as characters.
pub ghost struct FileEdgeView {
    pub id: Seq<char>,
    pub from_node: Seq<char>,
    pub from_side: Option<Seq<char>>,
    pub from_end: Option<Seq<char>>,
    pub from_anchor: Option<FileAnchor>,
    pub to_node: Seq<char>,
    pub to_side: Option<Seq<char>>,
    pub to_end: Option<Seq<char>>,
    pub to_anchor: Option<FileAnchor>,
    pub color: Option<Seq<char>>,
    pub label: Option<Seq<char>>,
}

impl View for FileEdge {
    type V = FileEdgeView;

    open spec fn view(&self) -> FileEdgeView {
        FileEdgeView {
            id: self.id@,
            from_node: self.from_node@,
            from_side: opt_view(self.from_side),
            from_end: opt_view(self.from_end),
            from_anchor: self.from_anchor,
            to_node: self.to_node@,
            to_side: opt_view(self.to_side),
            to_end: opt_view(self.to_end),
            to_anchor: self.to_anchor,
            color: opt_view(self.color),
            label: opt_view(self.label),
        }
    }
}

/// A board on disk as sequences of boxes and connectors.
#[verifier::ext_equal]
pub ghost struct FileView {
    pub nodes: Seq<FileNodeView>,
    pub edges: Seq<FileEdgeView>,
}

impl View for FileRoot {
    type V = FileView;

    open spec fn view(&self) -> FileView {
        FileView {
            nodes: Seq::new(self.nodes@.len(), |i: int| self.nodes@[i]@),
            edges: Seq::new(self.edges@.len(), |i: int| self.edges@[i]@),
        }
    }
}

/// The side that a text names.
pub open spec fn side_of(s: Seq<char>) -> Option<Side> {
    if s == "top"@ {
        Some(Side::Top)
    } else if s == "right"@ {
        Some(Side::Right)
    } else if s == "bottom"@ {
        Some(Side::Bottom)
    } else if s == "left"@ {
        Some(Side::Left)
    } else {
        None
    }
}

/// The side that an optional text names.
pub open spec fn opt_side_of(s: Option<Seq<char>>) -> Option<Side> {
    match s {
        Some(s) => side_of(s),
        None => None,
    }
}

/// A side's name.
pub open spec fn side_name(s: Side) -> Seq<char> {
    match s {
        Side::Top => "top"@,
        Side::Right => "right"@,
        Side::Bottom => "bottom"@,
        Side::Left => "left"@,
    }
}

/// An optional side's name.
pub open spec fn opt_side_name(s: Option<Side>) -> Option<Seq<char>> {
    match s {
        Some(s) => Some(side_name(s)),
        None => None,
    }
}

/// The anchor that a file holds.
pub open spec fn anchor_of(a: Option<FileAnchor>) -> Option<CellAnchor> {
    match a {
        Some(a) => Some(CellAnchor { row: a.row, col: a.col }),
        None => None,
    }
}

/// An anchor as a file holds it.
pub open spec fn file_anchor(a: Option<CellAnchor>) -> Option<FileAnchor> {
    match a {
        Some(a) => Some(FileAnchor { row: a.row, col: a.col }),
        None => None,
    }
}

/// The box that a file's node is. Coordinates are kept as they are; a size
/// is at least one cell.
pub open spec fn node_of(f: FileNodeView) -> NodeView {
    NodeView {
        id: f.id,
        rect: WorldRect {
            x: to_i32(f.x as int),
            y: to_i32(f.y as int),
            width: max(to_u16(f.width as int) as int, 1) as u16,
            height: max(to_u16(f.height as int) as int, 1) as u16,
        },
        color: opt_color_of(f.color),
        shape: match f.shape {
            Some(s) => shape_of(s),
            None => Shape::Rectangle,
        },
        kind: f.kind,
    }
}

/// The connector that a file's edge is. A missing end is plain at the start
/// and an arrow at the far end.
pub open spec fn edge_of(f: FileEdgeView) -> EdgeView {
    EdgeView {
        id: f.id,
        from: f.from_node,
        from_side: opt_side_of(f.from_side),
        from_end: if f.from_end == Some("arrow"@) {
            EdgeEnd::Arrow
        } else {
            EdgeEnd::Plain
        },
        from_anchor: anchor_of(f.from_anchor),
        to: f.to_node,
        to_side: opt_side_of(f.to_side),
        to_end: if f.to_end == Some("none"@) {
            EdgeEnd::Plain
        } else {
            EdgeEnd::Arrow
        },
        to_anchor: anchor_of(f.to_anchor),
        color: opt_color_of(f.color),
        label: f.label,
    }
}

/// A box as a file holds it.
pub open spec fn file_node(n: NodeView) -> FileNodeView {
    FileNodeView {
        id: n.id,
        x: n.rect.x as i64,
        y: n.rect.y as i64,
        width: n.rect.width as i64,
        height: n.rect.height as i64,
        color: opt_color_text(n.color),
        shape: if n.kind is Text {
            shape_name(n.shape)
        } else {
            None
        },
        kind: n.kind,
    }
}

/// A connector as a file holds it.
pub open spec fn file_edge(e: EdgeView) -> FileEdgeView {
    FileEdgeView {
        id: e.id,
        from_node: e.from,
        from_side: opt_side_name(e.from_side),
        from_end: if e.from_end == EdgeEnd::Arrow {
            Some("arrow"@)
        } else {
            None
        },
        from_anchor: file_anchor(e.from_anchor),
        to_node: e.to,
        to_side: opt_side_name(e.to_side),
        to_end: if e.to_end == EdgeEnd::Plain {
            Some("none"@)
        } else {
            None
        },
        to_anchor: file_anchor(e.to_anchor),
        color: opt_color_text(e.color),
        label: e.label,
    }
}

/// The boxes that a file's nodes are.
pub open spec fn nodes_of(f: Seq<FileNodeView>) -> Seq<NodeView> {
    Seq::new(f.len(), |i: int| node_of(f[i]))
}

/// The connectors that a file's edges are.
pub open spec fn edges_of(f: Seq<FileEdgeView>) -> Seq<EdgeView> {
    Seq::new(f.len(), |i: int| edge_of(f[i]))
}

/// Boxes as a file holds them.
pub open spec fn file_nodes(n: Seq<NodeView>) -> Seq<FileNodeView> {
    Seq::new(n.len(), |i: int| file_node(n[i]))
}

/// Connectors as a file holds them.
pub open spec fn file_edges(e: Seq<EdgeView>) -> Seq<FileEdgeView> {
    Seq::new(e.len(), |i: int| file_edge(e[i]))
}

/// A board as a file holds it.
pub open spec fn file_of(c: CanvasView) -> FileView {
    FileView { nodes: file_nodes(c.nodes), edges: file_edges(c.edges) }
}

/// The counter value that an id could have come from: the number behind an
/// `n`, 0 for any other id.
pub open spec fn id_number(id: Seq<char>) -> nat {
    if id.len() > 1 && id[0] == 'n' && (forall|i: int|
        0 <= i < id.skip(1).len() ==> is_digit(#[trigger] id.skip(1)[i])) && decimal_value(
        id.skip(1),
    ) <= u64::MAX {
        decimal_value(id.skip(1))
    } else {
        0
    }
}

/// The highest counter value among the ids of some boxes.
pub open spec fn highest_node(nodes: Seq<NodeView>) -> nat
    decreases nodes.len(),
{
    if nodes.len() == 0 {
        0
    } else {
        max(highest_node(nodes.drop_last()) as int, id_number(nodes.last().id) as int) as nat
    }
}

/// The highest counter value among the ids of some connectors.
pub open spec fn highest_edge(edges: Seq<EdgeView>) -> nat
    decreases edges.len(),
{
    if edges.len() == 0 {
        0
    } else {
        max(highest_edge(edges.drop_last()) as int, id_number(edges.last().id) as int) as nat
    }
}

/// A board with its counter moved past every id in use.
pub open spec fn counted(c: CanvasView) -> CanvasView {
    CanvasView {
        next_id: max(
            c.next_id as int,
            max(highest_node(c.nodes) as int, highest_edge(c.edges) as int),
        ) as u64,
        ..c
    }
}

/// The board that a file holds.
pub open spec fn canvas_of(f: FileView) -> CanvasView {
    counted(CanvasView { nodes: nodes_of(f.nodes), edges: edges_of(f.edges), next_id: 0 })
}

pub fn parse_side(s: &str) -> (r: Option<Side>)
    ensures
        r == side_of(s@),
{
    if same_str(s, "top") {
        Some(Side::Top)
    } else if same_str(s, "right") {
        Some(Side::Right)
    } else if same_str(s, "bottom") {
        Some(Side::Bottom)
    } else if same_str(s, "left") {
        Some(Side::Left)
    } else {
        None
    }
}

pub fn side_to_string(s: Side) -> (r: &'static str)
    ensures
        r@ == side_name(s),
{
    match s {
        Side::Top => "top",
        Side::Right => "right",
        Side::Bottom => "bottom",
        Side::Left => "left",
    }
}

/// The side that an optional text names.
pub fn read_side(s: &Option<String>) -> (r: Option<Side>)
    ensures
        r == opt_side_of(opt_view(*s)),
{
    match s {
        Some(s) => parse_side(s.as_str()),
        None => None,
    }
}

/// An optional side's name.
pub fn write_side(s: Option<Side>) -> (r: Option<String>)
    ensures
        opt_view(r) == opt_side_name(s),
{
    match s {
        Some(s) => Some(side_to_string(s).to_owned()),
        None => None,
    }
}

fn read_anchor(a: Option<FileAnchor>) -> (r: Option<CellAnchor>)
    ensures
        r == anchor_of(a),
{
    match a {
        Some(a) => Some(CellAnchor { row: a.row, col: a.col }),
        None => None,
    }
}

fn write_anchor(a: Option<CellAnchor>) -> (r: Option<FileAnchor>)
    ensures
        r == file_anchor(a),
{
    match a {
        Some(a) => Some(FileAnchor { row: a.row, col: a.col }),
        None => None,
    }
}

fn at_least_one(v: u16) -> (r: u16)
    ensures
        r == max(v as int, 1),
{
    if v < 1 {
        1
    } else {
        v
    }
}

pub(crate) fn read_rect(x: i64, y: i64, width: i64, height: i64) -> (r: WorldRect)
    ensures
        r.x == to_i32(x as int),
        r.y == to_i32(y as int),
        r.width == max(to_u16(width as int) as int, 1),
        r.height == max(to_u16(height as int) as int, 1),
{
    WorldRect::new(
        clamp_i32(x),
        clamp_i32(y),
        at_least_one(clamp_u16(width)),
        at_least_one(clamp_u16(height)),
    )
}

fn read_node(f: &FileNode) -> (r: Node)
    ensures
        r@ == node_of(f@),
{
    match f {
        FileNode::Text { id, x, y, width, height, color, shape, text } => Node {
            id: id.clone(),
            rect: read_rect(*x, *y, *width, *height),
            color: parse_color(color),
            shape: match shape {
                Some(s) => Shape::parse(s.as_str()),
                None => Shape::default(),
            },
            kind: NodeKind::Text(text.clone()),
        },
        FileNode::File { id, x, y, width, height, color, file, subpath } => Node {
            id: id.clone(),
            rect: read_rect(*x, *y, *width, *height),
            color: parse_color(color),
            shape: Shape::default(),
            kind: NodeKind::File { path: file.clone(), subpath: clone_opt(subpath) },
        },
        FileNode::Link { id, x, y, width, height, color, url } => Node {
            id: id.clone(),
            rect: read_rect(*x, *y, *width, *height),
            color: parse_color(color),
            shape: Shape::default(),
            kind: NodeKind::Link(url.clone()),
        },
        FileNode::Group {
            id,
            x,
            y,
            width,
            height,
            color,
            label,
            background,
            background_style,
        } => Node {
            id: id.clone(),
            rect: read_rect(*x, *y, *width, *height),
            color: parse_color(color),
            shape: Shape::default(),
            kind: NodeKind::Group {
                label: clone_opt(label),
                background: clone_opt(background),
                background_style: clone_opt(background_style),
            },
        },
    }
}

fn is_named(s: &Option<String>, name: &str) -> (r: bool)
    ensures
        r == (opt_view(*s) == Some(name@)),
{
    match s {
        Some(s) => same_str(s.as_str(), name),
        None => false,
    }
}

fn read_edge(f: &FileEdge) -> (r: Edge)
    ensures
        r@ == edge_of(f@),
{
    Edge {
        id: f.id.clone(),
        from: f.from_node.clone(),
        from_side: read_side(&f.from_side),
        from_end: if is_named(&f.from_end, "arrow") {
            EdgeEnd::Arrow
        } else {
            EdgeEnd::Plain
        },
        from_anchor: read_anchor(f.from_anchor),
        to: f.to_node.clone(),
        to_side: read_side(&f.to_side),
        to_end: if is_named(&f.to_end, "none") {
            EdgeEnd::Plain
        } else {
            EdgeEnd::Arrow
        },
        to_anchor: read_anchor(f.to_anchor),
        color: parse_color(&f.color),
        label: clone_opt(&f.label),
    }
}

/// The counter value that an id could have come from.
fn number_in(id: &str) -> (r: u64)
    ensures
        r == id_number(id@),
{
    let v: Vec<char> = to_chars(id);
    let n: usize = v.len();
    if n <= 1 || v[0] != 'n' {
        return 0;
    }
    let ghost rest = id@.skip(1);
    let mut value: u64 = 0;
    let mut i: usize = 1;
    proof {
        assert(rest.take(0) =~= Seq::empty());
    }
    while i < n
        invariant
            1 <= i <= n == v@.len(),
            v@ == id@,
            id@[0] == 'n',
            rest == id@.skip(1),
            value == decimal_value(rest.take(i - 1)),
            forall|k: int| 0 <= k < i - 1 ==> is_digit(#[trigger] rest[k]),
        decreases n - i,
    {
        let c: u32 = v[i] as u32;
        proof {
            assert(rest[i - 1] == v@[i as int]);
        }
        if c < '0' as u32 || c > '9' as u32 {
            proof {
                assert(!is_digit(rest[i - 1]));
                assert(!is_digit(id@.skip(1)[i - 1]));
            }
            return 0;
        }
        let d: u64 = (c - '0' as u32) as u64;
        let wide: u128 = (value as u128) * 10 + d as u128;
        proof {
            assert(rest.take(i as int).drop_last() =~= rest.take(i - 1));
            assert(rest.take(i as int).last() == rest[i - 1]);
            assert(wide == decimal_value(rest.take(i as int)));
        }
        if wide > u64::MAX as u128 {
            proof {
                lemma_value_grows(rest, i as int);
            }
            return 0;
        }
        value = wide as u64;
        i += 1;
    }
    proof {
        assert(rest.take(rest.len() as int) =~= rest);
    }
    value
}

proof fn lemma_value_grows(s: Seq<char>, i: int)
    requires
        0 <= i <= s.len(),
    ensures
        (forall|k: int| 0 <= k < s.len() ==> is_digit(#[trigger] s[k])) ==> decimal_value(s.take(i))
            <= decimal_value(s),
    decreases s.len(),
{
    if forall|k: int| 0 <= k < s.len() ==> is_digit(#[trigger] s[k]) {
        if i == s.len() {
            assert(s.take(i) =~= s);
        } else {
            let t = s.drop_last();
            assert forall|k: int| 0 <= k < t.len() implies is_digit(#[trigger] t[k]) by {
                assert(is_digit(s[k]));
            }
            lemma_value_grows(t, i);
            assert(t.take(i) =~= s.take(i));
            assert(is_digit(s[s.len() - 1]));
        }
    }
}

/// Moves a board's counter past every id in use.
pub fn count_ids(canvas: &mut Canvas)
    ensures
        final(canvas)@ == counted(old(canvas)@),
        final(canvas)@.wf(),
{
    let ghost before = canvas@;
    let mut highest: u64 = 0;
    let mut i: usize = 0;
    while i < canvas.nodes.len()
        invariant
            i <= canvas.nodes@.len(),
            canvas@ == before,
            highest == highest_node(before.nodes.take(i as int)),
        decreases canvas.nodes@.len() - i,
    {
        let n: u64 = number_in(canvas.nodes[i].id.as_str());
        if highest < n {
            highest = n;
        }
        i += 1;
        proof {
            assert(before.nodes.take(i as int).drop_last() =~= before.nodes.take(i - 1));
        }
    }
    proof {
        assert(before.nodes.take(before.nodes.len() as int) =~= before.nodes);
    }
    canvas.set_next_id(highest);
    let mut top: u64 = 0;
    let mut j: usize = 0;
    let ghost middle = canvas@;
    while j < canvas.edges.len()
        invariant
            j <= canvas.edges@.len(),
            canvas@ == middle,
            middle.edges == before.edges,
            top == highest_edge(before.edges.take(j as int)),
        decreases canvas.edges@.len() - j,
    {
        let n: u64 = number_in(canvas.edges[j].id.as_str());
        if top < n {
            top = n;
        }
        j += 1;
        proof {
            assert(before.edges.take(j as int).drop_last() =~= before.edges.take(j - 1));
        }
    }
    proof {
        assert(before.edges.take(before.edges.len() as int) =~= before.edges);
    }
    canvas.set_next_id(top);
    proof {
        assert(canvas@ =~= counted(before));
        lemma_counted_is_past_every_id(before);
    }
}

proof fn lemma_number_of(k: nat)
    requires
        k <= u64::MAX,
    ensures
        id_number(numbered(k)) == k,
{
    lemma_decimal_value(k);
    assert(numbered(k).skip(1) =~= decimal(k));
    assert(decimal(k).len() > 0);
}

proof fn lemma_highest_node(nodes: Seq<NodeView>, i: int)
    requires
        0 <= i < nodes.len(),
    ensures
        id_number(nodes[i].id) <= highest_node(nodes),
    decreases nodes.len(),
{
    if i < nodes.len() - 1 {
        lemma_highest_node(nodes.drop_last(), i);
    }
}

proof fn lemma_highest_edge(edges: Seq<EdgeView>, i: int)
    requires
        0 <= i < edges.len(),
    ensures
        id_number(edges[i].id) <= highest_edge(edges),
    decreases edges.len(),
{
    if i < edges.len() - 1 {
        lemma_highest_edge(edges.drop_last(), i);
    }
}

proof fn lemma_highest_fits(nodes: Seq<NodeView>, edges: Seq<EdgeView>)
    ensures
        highest_node(nodes) <= u64::MAX,
        highest_edge(edges) <= u64::MAX,
    decreases nodes.len(), edges.len(),
{
    if nodes.len() > 0 {
        lemma_highest_fits(nodes.drop_last(), edges);
    } else if edges.len() > 0 {
        lemma_highest_fits(nodes, edges.drop_last());
    }
}

/// Once a board's ids are counted, no id on it is one that the counter has
/// yet to give.
pub proof fn lemma_counted_is_past_every_id(c: CanvasView)
    ensures
        counted(c).wf(),
{
    let d = counted(c);
    lemma_highest_fits(c.nodes, c.edges);
    assert forall|i: int| 0 <= i < d.nodes.len() implies !past(
        (#[trigger] d.nodes[i]).id,
        d.next_id,
    ) by {
        let id = d.nodes[i].id;
        if past(id, d.next_id) {
            let k = choose|k: nat| d.next_id < k <= u64::MAX && id == #[trigger] numbered(k);
            lemma_number_of(k);
            lemma_highest_node(c.nodes, i);
        }
    }
    assert forall|i: int| 0 <= i < d.edges.len() implies !past(
        (#[trigger] d.edges[i]).id,
        d.next_id,
    ) by {
        let id = d.edges[i].id;
        if past(id, d.next_id) {
            let k = choose|k: nat| d.next_id < k <= u64::MAX && id == #[trigger] numbered(k);
            lemma_number_of(k);
            lemma_highest_edge(c.edges, i);
        }
    }
}

/// The board that a file holds. World coordinates are kept verbatim,
/// negative and all: a board made elsewhere saves back with every
/// coordinate where that tool put it.
pub fn from_file(root: &FileRoot) -> (r: Canvas)
    ensures
        r@ == canvas_of(root@),
        r@.wf(),
{
    let mut canvas: Canvas = Canvas::default();
    let mut i: usize = 0;
    while i < root.nodes.len()
        invariant
            i <= root.nodes@.len(),
            canvas@.nodes == nodes_of(root@.nodes).take(i as int),
            canvas@.edges.len() == 0,
            canvas.next_id == 0,
        decreases root.nodes@.len() - i,
    {
        let ghost before = canvas@.nodes;
        let node: Node = read_node(&root.nodes[i]);
        let ghost shown = node@;
        canvas.nodes.push(node);
        i += 1;
        proof {
            assert(canvas@.nodes =~= before.push(shown));
            assert(canvas@.nodes =~= nodes_of(root@.nodes).take(i as int));
        }
    }
    let mut j: usize = 0;
    while j < root.edges.len()
        invariant
            j <= root.edges@.len(),
            canvas@.nodes == nodes_of(root@.nodes),
            canvas@.edges == edges_of(root@.edges).take(j as int),
            canvas.next_id == 0,
        decreases root.edges@.len() - j,
    {
        let ghost before = canvas@.edges;
        let edge: Edge = read_edge(&root.edges[j]);
        let ghost shown = edge@;
        canvas.edges.push(edge);
        j += 1;
        proof {
            assert(canvas@.edges =~= before.push(shown));
            assert(canvas@.edges =~= edges_of(root@.edges).take(j as int));
        }
    }
    proof {
        assert(canvas@ =~= (CanvasView {
            nodes: nodes_of(root@.nodes),
            edges: edges_of(root@.edges),
            next_id: 0,
        }));
    }
    count_ids(&mut canvas);
    canvas
}

fn write_node(n: &Node) -> (r: FileNode)
    ensures
        r@ == file_node(n@),
{
    let id: String = n.id.clone();
    let x: i64 = n.rect.x as i64;
    let y: i64 = n.rect.y as i64;
    let width: i64 = n.rect.width as i64;
    let height: i64 = n.rect.height as i64;
    let color: Option<String> = write_color(&n.color);
    match &n.kind {
        NodeKind::Text(text) => FileNode::Text {
            id,
            x,
            y,
            width,
            height,
            color,
            shape: match n.shape.as_str() {
                Some(s) => Some(s.to_owned()),
                None => None,
            },
            text: text.clone(),
        },
        NodeKind::File { path, subpath } => FileNode::File {
            id,
            x,
            y,
            width,
            height,
            color,
            file: path.clone(),
            subpath: clone_opt(subpath),
        },
        NodeKind::Link(url) => FileNode::Link {
            id,
            x,
            y,
            width,
            height,
            color,
            url: url.clone(),
        },
        NodeKind::Group { label, background, background_style } => FileNode::Group {
            id,
            x,
            y,
            width,
            height,
            color,
            label: clone_opt(label),
            background: clone_opt(background),
            background_style: clone_opt(background_style),
        },
    }
}

fn write_edge(e: &Edge) -> (r: FileEdge)
    ensures
        r@ == file_edge(e@),
{
    FileEdge {
        id: e.id.clone(),
        from_node: e.from.clone(),
        from_side: write_side(e.from_side),
        from_end: if e.from_end == EdgeEnd::Arrow {
            Some("arrow".to_owned())
        } else {
            None
        },
        from_anchor: write_anchor(e.from_anchor),
        to_node: e.to.clone(),
        to_side: write_side(e.to_side),
        to_end: if e.to_end == EdgeEnd::Plain {
            Some("none".to_owned())
        } else {
            None
        },
        to_anchor: write_anchor(e.to_anchor),
        color: write_color(&e.color),
        label: clone_opt(&e.label),
    }
}

/// A board as a file holds it.
pub fn to_file(canvas: &Canvas) -> (r: FileRoot)
    ensures
        r@ == file_of(canvas@),
{
    let mut nodes: Vec<FileNode> = Vec::new();
    let mut i: usize = 0;
    while i < canvas.nodes.len()
        invariant
            i <= canvas.nodes@.len(),
            nodes@.len() == i,
            forall|k: int| 0 <= k < i ==> (#[trigger] nodes@[k])@ == file_node(canvas@.nodes[k]),
        decreases canvas.nodes@.len() - i,
    {
        nodes.push(write_node(&canvas.nodes[i]));
        i += 1;
    }
    let mut edges: Vec<FileEdge> = Vec::new();
    let mut j: usize = 0;
    while j < canvas.edges.len()
        invariant
            j <= canvas.edges@.len(),
            edges@.len() == j,
            forall|k: int| 0 <= k < j ==> (#[trigger] edges@[k])@ == file_edge(canvas@.edges[k]),
        decreases canvas.edges@.len() - j,
    {
        edges.push(write_edge(&canvas.edges[j]));
        j += 1;
    }
    let r = FileRoot { nodes, edges };
    proof {
        assert(r@ =~= file_of(canvas@));
    }
    r
}

/// Whether a color survives being written and read.
pub open spec fn color_storable(c: Option<ColorView>) -> bool {
    match c {
        Some(ColorView::Preset(n)) => 1 <= n <= 6,
        Some(ColorView::Hex(h)) => preset_of(h) is None,
        None => true,
    }
}

/// Whether a box survives being written and read: it has a size, its color
/// does, and only a text box is rounded.
pub open spec fn node_storable(n: NodeView) -> bool {
    &&& n.rect.width >= 1
    &&& n.rect.height >= 1
    &&& color_storable(n.color)
    &&& n.kind is Text || n.shape == Shape::Rectangle
}

pub(crate) proof fn lemma_names()
    ensures
        forall|s: Side| side_of(#[trigger] side_name(s)) == Some(s),
        forall|s: Seq<char>| (#[trigger] side_of(s)) is Some ==> side_name(side_of(s)->0) == s,
        shape_of("rounded"@) == Shape::Rounded,
{
    reveal_strlit("top");
    reveal_strlit("right");
    reveal_strlit("bottom");
    reveal_strlit("left");
    assert("right"@[0] == 'r');
    assert("left"@[0] == 'l');
    assert("top"@.len() == 3 && "right"@.len() == 5 && "bottom"@.len() == 6 && "left"@.len() == 4);
}

pub(crate) proof fn lemma_opt_color(c: Option<ColorView>)
    requires
        color_storable(c),
    ensures
        opt_color_of(opt_color_text(c)) == c,
{
    match c {
        Some(c) => lemma_color_reads_back(c),
        None => {},
    }
}

/// Writing a board and reading it gives back the same boxes and connectors
/// in the same order, every coordinate as it was.
pub proof fn lemma_board_reads_back(c: CanvasView)
    requires
        forall|i: int| 0 <= i < c.nodes.len() ==> node_storable(#[trigger] c.nodes[i]),
        forall|i: int| 0 <= i < c.edges.len() ==> color_storable((#[trigger] c.edges[i]).color),
    ensures
        canvas_of(file_of(c)).nodes == c.nodes,
        canvas_of(file_of(c)).edges == c.edges,
{
    lemma_names();
    assert forall|i: int| 0 <= i < c.nodes.len() implies node_of(
        file_node(#[trigger] c.nodes[i]),
    ) == c.nodes[i] by {
        lemma_opt_color(c.nodes[i].color);
    }
    assert forall|i: int| 0 <= i < c.edges.len() implies edge_of(
        file_edge(#[trigger] c.edges[i]),
    ) == c.edges[i] by {
        lemma_opt_color(c.edges[i].color);
    }
    assert(nodes_of(file_nodes(c.nodes)) =~= c.nodes);
    assert(edges_of(file_edges(c.edges)) =~= c.edges);
}

/// Whether a file's node has the plain form that this library writes.
pub open spec fn file_node_plain(f: FileNodeView) -> bool {
    &&& i32::MIN <= f.x <= i32::MAX
    &&& i32::MIN <= f.y <= i32::MAX
    &&& 1 <= f.width <= u16::MAX
    &&& 1 <= f.height <= u16::MAX
    &&& f.shape is None || (f.kind is Text && f.shape == Some("rounded"@))
}

/// Whether a file's edge has the plain form that this library writes.
pub open spec fn file_edge_plain(f: FileEdgeView) -> bool {
    &&& f.from_side is None || side_of(f.from_side->0) is Some
    &&& f.to_side is None || side_of(f.to_side->0) is Some
    &&& f.from_end is None || f.from_end == Some("arrow"@)
    &&& f.to_end is None || f.to_end == Some("none"@)
}

/// Reading a board made elsewhere and saving it gives the same file: every
/// node and edge, every coordinate, color and label as that tool wrote
/// them.
pub proof fn lemma_file_writes_back(f: FileView)
    requires
        forall|i: int| 0 <= i < f.nodes.len() ==> file_node_plain(#[trigger] f.nodes[i]),
        forall|i: int| 0 <= i < f.edges.len() ==> file_edge_plain(#[trigger] f.edges[i]),
    ensures
        file_of(canvas_of(f)) == f,
{
    lemma_names();
    reveal_strlit("arrow");
    reveal_strlit("none");
    assert forall|i: int| 0 <= i < f.nodes.len() implies file_node(
        node_of(#[trigger] f.nodes[i]),
    ) == f.nodes[i] by {
        let n = f.nodes[i];
        assert(file_node_plain(n));
        if n.color is Some {
            lemma_color_writes_back(n.color->0);
        }
    }
    assert forall|i: int| 0 <= i < f.edges.len() implies file_edge(
        edge_of(#[trigger] f.edges[i]),
    ) == f.edges[i] by {
        let e = f.edges[i];
        assert(file_edge_plain(e));
        if e.color is Some {
            lemma_color_writes_back(e.color->0);
        }
    }
    assert(file_of(canvas_of(f)) =~= f);
}

} // verus!

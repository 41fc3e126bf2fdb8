//! A board: boxes, and connectors between them.

use vstd::prelude::*;

use crate::text::{
    clone_opt, decimal, decimal_of, digit, lemma_decimal_injective, opt_view, same_str,
    string_of, to_chars,
};

verus! {

pub type ShapeId = String;

/// A box's place on the board. Coordinates may be negative; what part of
/// the board is on screen is for the camera to say.
#[derive(Debug, Clone, Copy, PartialEq, Eq, Structural)]
pub struct WorldRect {
    pub x: i32,
    pub y: i32,
    pub width: u16,
    pub height: u16,
}

impl WorldRect {
    pub fn new(x: i32, y: i32, width: u16, height: u16) -> (r: WorldRect)
        ensures
            r == (WorldRect { x, y, width, height }),
    {
        WorldRect { x, y, width, height }
    }
}

#[derive(Debug)]
pub enum Color {
    /// One of the six preset colors of JSON Canvas, 1..=6.
    Preset(u8),
    Hex(String),
}

/// A color, its text as characters.
pub ghost enum ColorView {
    Preset(u8),
    Hex(Seq<char>),
}

impl View for Color {
    type V = ColorView;

    open spec fn view(&self) -> ColorView {
        match self {
            Color::Preset(n) => ColorView::Preset(*n),
            Color::Hex(h) => ColorView::Hex(h@),
        }
    }
}

/// The view of an optional color.
pub open spec fn color_view(c: Option<Color>) -> Option<ColorView> {
    match c {
        Some(c) => Some(c@),
        None => None,
    }
}

/// The color after `c` in the cycle none, 1, 2, .. 6, none.
pub open spec fn next_color(c: Option<ColorView>) -> Option<ColorView> {
    match c {
        None => Some(ColorView::Preset(1)),
        Some(ColorView::Preset(n)) if n < 6 => Some(ColorView::Preset((n + 1) as u8)),
        _ => None,
    }
}

/// The preset that a text names, if it is one of "1".."6".
pub open spec fn preset_of(s: Seq<char>) -> Option<u8> {
    if s.len() == 1 && '1' as u32 <= s[0] as u32 <= '6' as u32 {
        Some((s[0] as u32 - '0' as u32) as u8)
    } else {
        None
    }
}

/// The color that a text names: a preset, or else a literal hex color.
pub open spec fn color_of(s: Seq<char>) -> ColorView {
    match preset_of(s) {
        Some(n) => ColorView::Preset(n),
        None => ColorView::Hex(s),
    }
}

/// The color that an optional text names.
pub open spec fn opt_color_of(s: Option<Seq<char>>) -> Option<ColorView> {
    match s {
        Some(s) => Some(color_of(s)),
        None => None,
    }
}

/// A color as text.
pub open spec fn color_text(c: ColorView) -> Seq<char> {
    match c {
        ColorView::Preset(n) => decimal(n as nat),
        ColorView::Hex(h) => h,
    }
}

/// An optional color as text.
pub open spec fn opt_color_text(c: Option<ColorView>) -> Option<Seq<char>> {
    match c {
        Some(c) => Some(color_text(c)),
        None => None,
    }
}

impl Clone for Color {
    fn clone(&self) -> (r: Color)
        ensures
            r == *self,
    {
        match self {
            Color::Preset(n) => Color::Preset(*n),
            Color::Hex(h) => Color::Hex(h.clone()),
        }
    }
}

impl Color {
    /// None -> 1 -> 2 -> ... -> 6 -> None.
    pub fn cycle(current: Option<&Color>) -> (r: Option<Color>)
        ensures
            color_view(r) == next_color(
                match current {
                    Some(c) => Some(c@),
                    None => None,
                },
            ),
    {
        match current {
            None => Some(Color::Preset(1)),
            Some(Color::Preset(n)) => if *n < 6 {
                Some(Color::Preset(*n + 1))
            } else {
                None
            },
            Some(Color::Hex(_)) => None,
        }
    }

    /// A JSON Canvas preset "1".."6", or any other string as a literal hex
    /// color.
    pub fn parse(s: &str) -> (r: Color)
        ensures
            r@ == color_of(s@),
    {
        let v: Vec<char> = to_chars(s);
        if v.len() == 1 && '1' as u32 <= v[0] as u32 && v[0] as u32 <= '6' as u32 {
            Color::Preset((v[0] as u32 - '0' as u32) as u8)
        } else {
            Color::Hex(s.to_owned())
        }
    }

    /// The color as text: what `parse` reads.
    pub fn to_string(&self) -> (r: String)
        ensures
            r@ == color_text(self@),
    {
        match self {
            Color::Preset(n) => {
                let v: Vec<char> = decimal_of(*n as u64);
                let len: usize = v.len();
                proof {
                    assert(v@.subrange(0, len as int) =~= v@);
                }
                string_of(&v, 0, len)
            },
            Color::Hex(h) => h.clone(),
        }
    }
}

/// The color that an optional text names.
pub fn parse_color(s: &Option<String>) -> (r: Option<Color>)
    ensures
        color_view(r) == opt_color_of(opt_view(*s)),
{
    match s {
        Some(s) => Some(Color::parse(s.as_str())),
        None => None,
    }
}

/// An optional color as text.
pub fn write_color(c: &Option<Color>) -> (r: Option<String>)
    ensures
        opt_view(r) == opt_color_text(color_view(*c)),
{
    match c {
        Some(c) => Some(c.to_string()),
        None => None,
    }
}

/// A copy of an optional color.
pub fn clone_color(c: &Option<Color>) -> (r: Option<Color>)
    ensures
        r == *c,
{
    match c {
        Some(c) => Some(c.clone()),
        None => None,
    }
}

/// A box's outline. Not part of JSON Canvas: other readers ignore the
/// field that carries it.
#[derive(Debug, Clone, Copy, PartialEq, Eq, Structural)]
pub enum Shape {
    Rectangle,
    Rounded,
}

/// The shape that a text names.
pub open spec fn shape_of(s: Seq<char>) -> Shape {
    if s == "rounded"@ {
        Shape::Rounded
    } else {
        Shape::Rectangle
    }
}

/// The other shape.
pub open spec fn other_shape(s: Shape) -> Shape {
    match s {
        Shape::Rectangle => Shape::Rounded,
        Shape::Rounded => Shape::Rectangle,
    }
}

/// A shape's own name, none for the default.
pub open spec fn shape_name(s: Shape) -> Option<Seq<char>> {
    match s {
        Shape::Rectangle => None,
        Shape::Rounded => Some("rounded"@),
    }
}

impl Default for Shape {
    fn default() -> (r: Shape)
        ensures
            r == Shape::Rectangle,
    {
        Shape::Rectangle
    }
}

impl Shape {
    pub fn cycle(self) -> (r: Shape)
        ensures
            r == other_shape(self),
    {
        match self {
            Shape::Rectangle => Shape::Rounded,
            Shape::Rounded => Shape::Rectangle,
        }
    }

    pub fn parse(s: &str) -> (r: Shape)
        ensures
            r == shape_of(s@),
    {
        if same_str(s, "rounded") {
            Shape::Rounded
        } else {
            Shape::Rectangle
        }
    }

    pub fn as_str(self) -> (r: Option<&'static str>)
        ensures
            match r {
                Some(s) => shape_name(self) == Some(s@),
                None => shape_name(self) is None,
            },
    {
        match self {
            Shape::Rectangle => None,
            Shape::Rounded => Some("rounded"),
        }
    }
}

#[derive(Debug)]
pub enum NodeKind {
    Text(String),
    File { path: String, subpath: Option<String> },
    Link(String),
    Group {
        label: Option<String>,
        background: Option<String>,
        background_style: Option<String>,
    },
}

/// What a box holds, its texts as characters.
pub ghost enum KindView {
    Text(Seq<char>),
    File { path: Seq<char>, subpath: Option<Seq<char>> },
    Link(Seq<char>),
    Group {
        label: Option<Seq<char>>,
        background: Option<Seq<char>>,
        background_style: Option<Seq<char>>,
    },
}

impl View for NodeKind {
    type V = KindView;

    open spec fn view(&self) -> KindView {
        match self {
            NodeKind::Text(t) => KindView::Text(t@),
            NodeKind::File { path, subpath } => KindView::File {
                path: path@,
                subpath: opt_view(*subpath),
            },
            NodeKind::Link(url) => KindView::Link(url@),
            NodeKind::Group { label, background, background_style } => KindView::Group {
                label: opt_view(*label),
                background: opt_view(*background),
                background_style: opt_view(*background_style),
            },
        }
    }
}

impl Clone for NodeKind {
    fn clone(&self) -> (r: NodeKind)
        ensures
            r == *self,
    {
        match self {
            NodeKind::Text(t) => NodeKind::Text(t.clone()),
            NodeKind::File { path, subpath } => NodeKind::File {
                path: path.clone(),
                subpath: clone_opt(subpath),
            },
            NodeKind::Link(url) => NodeKind::Link(url.clone()),
            NodeKind::Group { label, background, background_style } => NodeKind::Group {
                label: clone_opt(label),
                background: clone_opt(background),
                background_style: clone_opt(background_style),
            },
        }
    }
}

#[derive(Debug)]
pub struct Node {
    pub id: ShapeId,
    pub rect: WorldRect,
    pub color: Option<Color>,
    pub shape: Shape,
    pub kind: NodeKind,
}

/// A box, its texts as characters.
pub ghost struct NodeView {
    pub id: Seq<char>,
    pub rect: WorldRect,
    pub color: Option<ColorView>,
    pub shape: Shape,
    pub kind: KindView,
}

impl View for Node {
    type V = NodeView;

    open spec fn view(&self) -> NodeView {
        NodeView {
            id: self.id@,
            rect: self.rect,
            color: color_view(self.color),
            shape: self.shape,
            kind: self.kind@,
        }
    }
}

impl Clone for Node {
    fn clone(&self) -> (r: Node)
        ensures
            r == *self,
    {
        Node {
            id: self.id.clone(),
            rect: self.rect,
            color: clone_color(&self.color),
            shape: self.shape,
            kind: self.kind.clone(),
        }
    }
}

#[derive(Debug, Clone, Copy, PartialEq, Eq, Hash, Structural)]
pub enum Side {
    Top,
    Right,
    Bottom,
    Left,
}

#[derive(Debug, Clone, Copy, PartialEq, Eq, Structural)]
pub enum EdgeEnd {
    Plain,
    Arrow,
}

/// Which row and/or column of a table box a connector end lines up with.
#[derive(Debug, Clone, Copy, PartialEq, Eq, Structural)]
pub struct CellAnchor {
    pub row: Option<usize>,
    pub col: Option<usize>,
}

#[derive(Debug)]
pub struct Edge {
    pub id: String,
    pub from: ShapeId,
    pub from_side: Option<Side>,
    pub from_end: EdgeEnd,
    pub from_anchor: Option<CellAnchor>,
    pub to: ShapeId,
    pub to_side: Option<Side>,
    pub to_end: EdgeEnd,
    pub to_anchor: Option<CellAnchor>,
    pub color: Option<Color>,
    pub label: Option<String>,
}

/// A connector, its texts as characters.
pub ghost struct EdgeView {
    pub id: Seq<char>,
    pub from: Seq<char>,
    pub from_side: Option<Side>,
    pub from_end: EdgeEnd,
    pub from_anchor: Option<CellAnchor>,
    pub to: Seq<char>,
    pub to_side: Option<Side>,
    pub to_end: EdgeEnd,
    pub to_anchor: Option<CellAnchor>,
    pub color: Option<ColorView>,
    pub label: Option<Seq<char>>,
}

impl View for Edge {
    type V = EdgeView;

    open spec fn view(&self) -> EdgeView {
        EdgeView {
            id: self.id@,
            from: self.from@,
            from_side: self.from_side,
            from_end: self.from_end,
            from_anchor: self.from_anchor,
            to: self.to@,
            to_side: self.to_side,
            to_end: self.to_end,
            to_anchor: self.to_anchor,
            color: color_view(self.color),
            label: opt_view(self.label),
        }
    }
}

impl Clone for Edge {
    fn clone(&self) -> (r: Edge)
        ensures
            r == *self,
    {
        Edge {
            id: self.id.clone(),
            from: self.from.clone(),
            from_side: self.from_side,
            from_end: self.from_end,
            from_anchor: self.from_anchor,
            to: self.to.clone(),
            to_side: self.to_side,
            to_end: self.to_end,
            to_anchor: self.to_anchor,
            color: clone_color(&self.color),
            label: clone_opt(&self.label),
        }
    }
}

/// Nodes are drawn, and hit-tested, in this order, so the last one is on
/// top: the rule that JSON Canvas has for its `nodes` array.
#[derive(Debug)]
pub struct Canvas {
    pub nodes: Vec<Node>,
    pub edges: Vec<Edge>,
    pub next_id: u64,
}

/// A board as sequences of boxes and connectors.
#[verifier::ext_equal]
pub ghost struct CanvasView {
    pub nodes: Seq<NodeView>,
    pub edges: Seq<EdgeView>,
    pub next_id: u64,
}

/// The views of a list of boxes.
pub open spec fn node_views(s: Seq<Node>) -> Seq<NodeView> {
    Seq::new(s.len(), |i: int| s[i]@)
}

/// The views of a list of connectors.
pub open spec fn edge_views(s: Seq<Edge>) -> Seq<EdgeView> {
    Seq::new(s.len(), |i: int| s[i]@)
}

impl View for Canvas {
    type V = CanvasView;

    open spec fn view(&self) -> CanvasView {
        CanvasView {
            nodes: node_views(self.nodes@),
            edges: edge_views(self.edges@),
            next_id: self.next_id,
        }
    }
}

/// A board with nothing on it.
pub open spec fn empty_canvas() -> CanvasView {
    CanvasView { nodes: Seq::empty(), edges: Seq::empty(), next_id: 0 }
}

/// The index of the first box with an id.
pub open spec fn find_node(nodes: Seq<NodeView>, id: Seq<char>) -> Option<int>
    decreases nodes.len(),
{
    if nodes.len() == 0 {
        None
    } else {
        match find_node(nodes.drop_last(), id) {
            Some(i) => Some(i),
            None => if nodes.last().id == id {
                Some(nodes.len() - 1)
            } else {
                None
            },
        }
    }
}

/// The index of the first connector with an id.
pub open spec fn find_edge(edges: Seq<EdgeView>, id: Seq<char>) -> Option<int>
    decreases edges.len(),
{
    if edges.len() == 0 {
        None
    } else {
        match find_edge(edges.drop_last(), id) {
            Some(i) => Some(i),
            None => if edges.last().id == id {
                Some(edges.len() - 1)
            } else {
                None
            },
        }
    }
}

/// The id that the counter `n` gives.
pub open spec fn numbered(n: nat) -> Seq<char> {
    seq!['n'] + decimal(n)
}

/// Whether an id is one that the counter gives only past `n`.
pub open spec fn past(id: Seq<char>, n: u64) -> bool {
    exists|k: nat| n < k <= u64::MAX && id == #[trigger] numbered(k)
}

/// The test for boxes with another id.
pub open spec fn not_node(id: Seq<char>) -> spec_fn(NodeView) -> bool {
    |n: NodeView| n.id != id
}

/// The test for connectors that do not touch a box.
pub open spec fn not_touching(id: Seq<char>) -> spec_fn(EdgeView) -> bool {
    |e: EdgeView| e.from != id && e.to != id
}

/// The test for connectors with another id.
pub open spec fn not_edge(id: Seq<char>) -> spec_fn(EdgeView) -> bool {
    |e: EdgeView| e.id != id
}

/// A new text box.
pub open spec fn new_text(id: Seq<char>, rect: WorldRect) -> NodeView {
    NodeView {
        id,
        rect,
        color: None,
        shape: Shape::Rectangle,
        kind: KindView::Text(Seq::empty()),
    }
}

/// A new connector: an arrow at its far end, no sides fixed.
pub open spec fn new_edge(id: Seq<char>, from: Seq<char>, to: Seq<char>) -> EdgeView {
    EdgeView {
        id,
        from,
        from_side: None,
        from_end: EdgeEnd::Plain,
        from_anchor: None,
        to,
        to_side: None,
        to_end: EdgeEnd::Arrow,
        to_anchor: None,
        color: None,
        label: None,
    }
}

impl CanvasView {
    /// No id on the board is one that the counter has yet to give.
    pub open spec fn wf(self) -> bool {
        &&& forall|i: int|
            0 <= i < self.nodes.len() ==> !past((#[trigger] self.nodes[i]).id, self.next_id)
        &&& forall|i: int|
            0 <= i < self.edges.len() ==> !past((#[trigger] self.edges[i]).id, self.next_id)
    }

    /// The first box with an id.
    pub open spec fn node(self, id: Seq<char>) -> Option<NodeView> {
        match find_node(self.nodes, id) {
            Some(i) => Some(self.nodes[i]),
            None => None,
        }
    }

    /// The first connector with an id.
    pub open spec fn edge(self, id: Seq<char>) -> Option<EdgeView> {
        match find_edge(self.edges, id) {
            Some(i) => Some(self.edges[i]),
            None => None,
        }
    }

    /// Whether a box with the id is on the board.
    pub open spec fn has_node(self, id: Seq<char>) -> bool {
        find_node(self.nodes, id) is Some
    }

    /// Whether a connector with the id is on the board.
    pub open spec fn has_edge(self, id: Seq<char>) -> bool {
        find_edge(self.edges, id) is Some
    }

    /// The board with the first box of that id replaced.
    pub open spec fn with_node(self, id: Seq<char>, node: NodeView) -> CanvasView {
        match find_node(self.nodes, id) {
            Some(i) => CanvasView { nodes: self.nodes.update(i, node), ..self },
            None => self,
        }
    }

    /// The board with the first connector of that id replaced.
    pub open spec fn with_edge(self, id: Seq<char>, edge: EdgeView) -> CanvasView {
        match find_edge(self.edges, id) {
            Some(i) => CanvasView { edges: self.edges.update(i, edge), ..self },
            None => self,
        }
    }

    /// The id that the next new box or connector gets.
    pub open spec fn next(self) -> Seq<char> {
        numbered((self.next_id + 1) as nat)
    }

    /// The board with a new text box.
    pub open spec fn placed(self, rect: WorldRect) -> CanvasView {
        CanvasView {
            nodes: self.nodes.push(new_text(self.next(), rect)),
            edges: self.edges,
            next_id: (self.next_id + 1) as u64,
        }
    }

    /// The board with a new connector.
    pub open spec fn connected(self, from: Seq<char>, to: Seq<char>) -> CanvasView {
        CanvasView {
            nodes: self.nodes,
            edges: self.edges.push(new_edge(self.next(), from, to)),
            next_id: (self.next_id + 1) as u64,
        }
    }

    /// The board without a box and the connectors that touch it.
    pub open spec fn without_node(self, id: Seq<char>) -> CanvasView {
        CanvasView {
            nodes: self.nodes.filter(not_node(id)),
            edges: self.edges.filter(not_touching(id)),
            next_id: self.next_id,
        }
    }

    /// The board without a connector.
    pub open spec fn without_edge(self, id: Seq<char>) -> CanvasView {
        CanvasView { edges: self.edges.filter(not_edge(id)), ..self }
    }

    /// The board with the text of a text box replaced; any other box keeps
    /// what it holds.
    pub open spec fn with_text(self, id: Seq<char>, text: Seq<char>) -> CanvasView {
        match self.node(id) {
            Some(node) => if node.kind is Text {
                self.with_node(id, NodeView { kind: KindView::Text(text), ..node })
            } else {
                self
            },
            None => self,
        }
    }
}

pub proof fn lemma_find_node(nodes: Seq<NodeView>, id: Seq<char>)
    ensures
        match find_node(nodes, id) {
            Some(i) => 0 <= i < nodes.len() && nodes[i].id == id && forall|k: int|
                0 <= k < i ==> (#[trigger] nodes[k]).id != id,
            None => forall|k: int| 0 <= k < nodes.len() ==> (#[trigger] nodes[k]).id != id,
        },
    decreases nodes.len(),
{
    if nodes.len() > 0 {
        lemma_find_node(nodes.drop_last(), id);
        assert(forall|k: int|
            0 <= k < nodes.len() - 1 ==> nodes.drop_last()[k] == #[trigger] nodes[k]);
    }
}

pub proof fn lemma_find_edge(edges: Seq<EdgeView>, id: Seq<char>)
    ensures
        match find_edge(edges, id) {
            Some(i) => 0 <= i < edges.len() && edges[i].id == id && forall|k: int|
                0 <= k < i ==> (#[trigger] edges[k]).id != id,
            None => forall|k: int| 0 <= k < edges.len() ==> (#[trigger] edges[k]).id != id,
        },
    decreases edges.len(),
{
    if edges.len() > 0 {
        lemma_find_edge(edges.drop_last(), id);
        assert(forall|k: int|
            0 <= k < edges.len() - 1 ==> edges.drop_last()[k] == #[trigger] edges[k]);
    }
}

/// A prefix without the id does not change where it is found.
proof fn lemma_find_node_prefix(nodes: Seq<NodeView>, id: Seq<char>, i: int)
    requires
        0 <= i < nodes.len(),
        nodes[i].id == id,
        find_node(nodes.take(i), id) is None,
    ensures
        find_node(nodes, id) == Some(i),
{
    lemma_find_node(nodes, id);
    lemma_find_node(nodes.take(i), id);
    let j = find_node(nodes, id)->0;
    if j < i {
        assert(nodes.take(i)[j] == nodes[j]);
    }
}

proof fn lemma_find_edge_prefix(edges: Seq<EdgeView>, id: Seq<char>, i: int)
    requires
        0 <= i < edges.len(),
        edges[i].id == id,
        find_edge(edges.take(i), id) is None,
    ensures
        find_edge(edges, id) == Some(i),
{
    lemma_find_edge(edges, id);
    lemma_find_edge(edges.take(i), id);
    let j = find_edge(edges, id)->0;
    if j < i {
        assert(edges.take(i)[j] == edges[j]);
    }
}

impl Clone for Canvas {
    fn clone(&self) -> (r: Canvas)
        ensures
            r@ == self@,
    {
        let mut nodes: Vec<Node> = Vec::new();
        let mut i: usize = 0;
        while i < self.nodes.len()
            invariant
                i <= self.nodes@.len(),
                nodes@ == self.nodes@.take(i as int),
            decreases self.nodes@.len() - i,
        {
            nodes.push(self.nodes[i].clone());
            i += 1;
            proof {
                assert(self.nodes@.take(i as int) =~= self.nodes@.take(i - 1).push(
                    self.nodes@[i - 1],
                ));
            }
        }
        let mut edges: Vec<Edge> = Vec::new();
        let mut j: usize = 0;
        while j < self.edges.len()
            invariant
                j <= self.edges@.len(),
                edges@ == self.edges@.take(j as int),
            decreases self.edges@.len() - j,
        {
            edges.push(self.edges[j].clone());
            j += 1;
            proof {
                assert(self.edges@.take(j as int) =~= self.edges@.take(j - 1).push(
                    self.edges@[j - 1],
                ));
            }
        }
        proof {
            assert(self.nodes@.take(self.nodes@.len() as int) =~= self.nodes@);
            assert(self.edges@.take(self.edges@.len() as int) =~= self.edges@);
        }
        Canvas { nodes, edges, next_id: self.next_id }
    }
}

impl Default for Canvas {
    fn default() -> (r: Canvas)
        ensures
            r@ == empty_canvas(),
            r@.wf(),
    {
        let r = Canvas { nodes: Vec::new(), edges: Vec::new(), next_id: 0 };
        proof {
            assert(r@ =~= empty_canvas());
        }
        r
    }
}

impl Canvas {
    fn fresh_id(&mut self) -> (r: String)
        requires
            old(self).next_id < u64::MAX,
        ensures
            r@ == old(self)@.next(),
            final(self).nodes == old(self).nodes,
            final(self).edges == old(self).edges,
            final(self).next_id == old(self).next_id + 1,
    {
        self.next_id = self.next_id + 1;
        let digits: Vec<char> = decimal_of(self.next_id);
        let mut v: Vec<char> = Vec::new();
        v.push('n');
        let mut i: usize = 0;
        while i < digits.len()
            invariant
                i <= digits@.len(),
                v@ == seq!['n'] + digits@.take(i as int),
            decreases digits@.len() - i,
        {
            v.push(digits[i]);
            i += 1;
            proof {
                assert(seq!['n'] + digits@.take(i as int) =~= (seq!['n'] + digits@.take(
                    i - 1,
                )).push(digits@[i - 1]));
            }
        }
        let n: usize = v.len();
        proof {
            assert(digits@.take(digits@.len() as int) =~= digits@);
            assert(v@.subrange(0, n as int) =~= v@);
        }
        string_of(&v, 0, n)
    }

    /// Bumps the id counter past whatever an imported file already used, so
    /// newly placed shapes never collide with it.
    pub fn set_next_id(&mut self, next: u64)
        ensures
            final(self).nodes == old(self).nodes,
            final(self).edges == old(self).edges,
            final(self).next_id == if next > old(self).next_id {
                next
            } else {
                old(self).next_id
            },
    {
        if next > self.next_id {
            self.next_id = next;
        }
    }

    /// Places a new, empty text box, by default 16 wide and 3 high, and
    /// gives its id.
    pub fn place_text(&mut self, x: i32, y: i32, w: Option<u16>, h: Option<u16>) -> (r: ShapeId)
        requires
            old(self).next_id < u64::MAX,
        ensures
            r@ == old(self)@.next(),
            final(self)@ == old(self)@.placed(place_rect(x, y, w, h)),
    {
        let id: String = self.fresh_id();
        let width: u16 = match w {
            Some(w) => w,
            None => 16,
        };
        let height: u16 = match h {
            Some(h) => h,
            None => 3,
        };
        let text: String = String::new();
        proof {
            assert(text@ =~= Seq::empty());
        }
        self.nodes.push(
            Node {
                id: id.clone(),
                rect: WorldRect::new(x, y, width, height),
                color: None,
                shape: Shape::default(),
                kind: NodeKind::Text(text),
            },
        );
        proof {
            assert(self@ =~= old(self)@.placed(place_rect(x, y, w, h)));
        }
        id
    }

    /// The index of the first box with an id.
    pub fn node_index(&self, id: &str) -> (r: Option<usize>)
        ensures
            match r {
                Some(i) => find_node(self@.nodes, id@) == Some(i as int) && i < self.nodes@.len(),
                None => find_node(self@.nodes, id@) is None,
            },
    {
        let mut i: usize = 0;
        while i < self.nodes.len()
            invariant
                i <= self.nodes@.len(),
                find_node(self@.nodes.take(i as int), id@) is None,
            decreases self.nodes@.len() - i,
        {
            if same_str(self.nodes[i].id.as_str(), id) {
                proof {
                    lemma_find_node_prefix(self@.nodes, id@, i as int);
                }
                return Some(i);
            }
            i += 1;
            proof {
                assert(self@.nodes.take(i as int).drop_last() =~= self@.nodes.take(i - 1));
            }
        }
        proof {
            assert(self@.nodes.take(self.nodes@.len() as int) =~= self@.nodes);
        }
        None
    }

    /// The index of the first connector with an id.
    pub fn edge_index(&self, id: &str) -> (r: Option<usize>)
        ensures
            match r {
                Some(i) => find_edge(self@.edges, id@) == Some(i as int) && i < self.edges@.len(),
                None => find_edge(self@.edges, id@) is None,
            },
    {
        let mut i: usize = 0;
        while i < self.edges.len()
            invariant
                i <= self.edges@.len(),
                find_edge(self@.edges.take(i as int), id@) is None,
            decreases self.edges@.len() - i,
        {
            if same_str(self.edges[i].id.as_str(), id) {
                proof {
                    lemma_find_edge_prefix(self@.edges, id@, i as int);
                }
                return Some(i);
            }
            i += 1;
            proof {
                assert(self@.edges.take(i as int).drop_last() =~= self@.edges.take(i - 1));
            }
        }
        proof {
            assert(self@.edges.take(self.edges@.len() as int) =~= self@.edges);
        }
        None
    }

    pub fn node(&self, id: &str) -> (r: Option<&Node>)
        ensures
            match r {
                Some(n) => self@.node(id@) == Some(n@),
                None => self@.node(id@) is None,
            },
    {
        match self.node_index(id) {
            Some(i) => Some(&self.nodes[i]),
            None => None,
        }
    }

    pub fn edge(&self, id: &str) -> (r: Option<&Edge>)
        ensures
            match r {
                Some(e) => self@.edge(id@) == Some(e@),
                None => self@.edge(id@) is None,
            },
    {
        match self.edge_index(id) {
            Some(i) => Some(&self.edges[i]),
            None => None,
        }
    }

    pub fn node_mut(&mut self, id: &str) -> (r: Option<&mut Node>)
        ensures
            match r {
                Some(n) => {
                    &&& old(self)@.node(id@) == Some((*n)@)
                    &&& final(self)@ == old(self)@.with_node(id@, (*final(n))@)
                },
                None => old(self)@.node(id@) is None && *final(self) == *old(self),
            },
    {
        match self.node_index(id) {
            Some(i) => Some(&mut self.nodes[i]),
            None => None,
        }
    }

    /// Draws an arrow from one box to another and gives its id.
    pub fn connect(&mut self, from: ShapeId, to: ShapeId) -> (r: String)
        requires
            old(self).next_id < u64::MAX,
        ensures
            r@ == old(self)@.next(),
            final(self)@ == old(self)@.connected(from@, to@),
    {
        let id: String = self.fresh_id();
        let ghost (f, t) = (from@, to@);
        self.edges.push(
            Edge {
                id: id.clone(),
                from,
                from_side: None,
                from_end: EdgeEnd::Plain,
                from_anchor: None,
                to,
                to_side: None,
                to_end: EdgeEnd::Arrow,
                to_anchor: None,
                color: None,
                label: None,
            },
        );
        proof {
            assert(self@ =~= old(self)@.connected(f, t));
        }
        id
    }

    pub fn edge_mut(&mut self, id: &str) -> (r: Option<&mut Edge>)
        ensures
            match r {
                Some(e) => {
                    &&& old(self)@.edge(id@) == Some((*e)@)
                    &&& final(self)@ == old(self)@.with_edge(id@, (*final(e))@)
                },
                None => old(self)@.edge(id@) is None && *final(self) == *old(self),
            },
    {
        match self.edge_index(id) {
            Some(i) => Some(&mut self.edges[i]),
            None => None,
        }
    }

    /// Removes a box and the connectors that touch it.
    pub fn delete(&mut self, id: &str)
        ensures
            final(self)@ == old(self)@.without_node(id@),
    {
        let ghost before = self@;
        let mut nodes: Vec<Node> = Vec::new();
        let mut i: usize = 0;
        proof {
            reveal(Seq::filter);
            assert(node_views(nodes@) =~= before.nodes.take(0).filter(not_node(id@)));
        }
        while i < self.nodes.len()
            invariant
                i <= self.nodes@.len(),
                self@ == before,
                node_views(nodes@) == before.nodes.take(i as int).filter(not_node(id@)),
            decreases self.nodes@.len() - i,
        {
            let ghost kept = node_views(nodes@);
            proof {
                let upto = before.nodes.take(i as int);
                assert(before.nodes.take(i + 1) =~= upto.push(self.nodes@[i as int]@));
                upto.lemma_filter_push(self.nodes@[i as int]@, not_node(id@));
            }
            if !same_str(self.nodes[i].id.as_str(), id) {
                nodes.push(self.nodes[i].clone());
                proof {
                    assert(node_views(nodes@) =~= kept.push(self.nodes@[i as int]@));
                }
            }
            i += 1;
        }
        let mut edges: Vec<Edge> = Vec::new();
        let mut j: usize = 0;
        proof {
            reveal(Seq::filter);
            assert(edge_views(edges@) =~= before.edges.take(0).filter(not_touching(id@)));
        }
        while j < self.edges.len()
            invariant
                j <= self.edges@.len(),
                self@ == before,
                edge_views(edges@) == before.edges.take(j as int).filter(not_touching(id@)),
            decreases self.edges@.len() - j,
        {
            let ghost kept = edge_views(edges@);
            proof {
                let upto = before.edges.take(j as int);
                assert(before.edges.take(j + 1) =~= upto.push(self.edges@[j as int]@));
                upto.lemma_filter_push(self.edges@[j as int]@, not_touching(id@));
            }
            if !same_str(self.edges[j].from.as_str(), id) && !same_str(
                self.edges[j].to.as_str(),
                id,
            ) {
                edges.push(self.edges[j].clone());
                proof {
                    assert(edge_views(edges@) =~= kept.push(self.edges@[j as int]@));
                }
            }
            j += 1;
        }
        proof {
            assert(before.nodes.take(before.nodes.len() as int) =~= before.nodes);
            assert(before.edges.take(before.edges.len() as int) =~= before.edges);
        }
        self.nodes = nodes;
        self.edges = edges;
    }

    /// Removes a connector.
    pub fn delete_edge(&mut self, id: &str)
        ensures
            final(self)@ == old(self)@.without_edge(id@),
    {
        let ghost before = self@;
        let mut edges: Vec<Edge> = Vec::new();
        let mut j: usize = 0;
        proof {
            reveal(Seq::filter);
            assert(edge_views(edges@) =~= before.edges.take(0).filter(not_edge(id@)));
        }
        while j < self.edges.len()
            invariant
                j <= self.edges@.len(),
                self@ == before,
                edge_views(edges@) == before.edges.take(j as int).filter(not_edge(id@)),
            decreases self.edges@.len() - j,
        {
            let ghost kept = edge_views(edges@);
            proof {
                let upto = before.edges.take(j as int);
                assert(before.edges.take(j + 1) =~= upto.push(self.edges@[j as int]@));
                upto.lemma_filter_push(self.edges@[j as int]@, not_edge(id@));
            }
            if !same_str(self.edges[j].id.as_str(), id) {
                edges.push(self.edges[j].clone());
                proof {
                    assert(edge_views(edges@) =~= kept.push(self.edges@[j as int]@));
                }
            }
            j += 1;
        }
        proof {
            assert(before.edges.take(before.edges.len() as int) =~= before.edges);
        }
        self.edges = edges;
    }

    /// Replaces the text of a text box by what `f` makes of it; any other
    /// id changes nothing.
    pub fn edit_text<F: FnOnce(String) -> String>(&mut self, id: &str, f: F)
        requires
            forall|t: String| f.requires((t,)),
        ensures
            match old(self)@.node(id@) {
                Some(node) => match node.kind {
                    KindView::Text(before) => exists|t: String, u: String|
                        {
                            &&& t@ == before
                            &&& #[trigger] f.ensures((t,), u)
                            &&& final(self)@ == old(self)@.with_text(id@, u@)
                        },
                    _ => final(self)@ == old(self)@,
                },
                None => final(self)@ == old(self)@,
            },
    {
        let ghost before = self@;
        match self.node_index(id) {
            None => {},
            Some(i) => {
                let taken: Option<String> = match &self.nodes[i].kind {
                    NodeKind::Text(t) => Some(t.clone()),
                    _ => None,
                };
                if let Some(t) = taken {
                    let ghost shown = t;
                    let u: String = f(t);
                    let ghost given = u;
                    self.nodes[i].kind = NodeKind::Text(u);
                    proof {
                        assert(self@ =~= before.with_text(id@, given@));
                        assert(f.ensures((shown,), given));
                    }
                }
            },
        }
    }
}

/// Where a new box goes.
pub open spec fn place_rect(x: i32, y: i32, w: Option<u16>, h: Option<u16>) -> WorldRect {
    WorldRect {
        x,
        y,
        width: match w {
            Some(w) => w,
            None => 16,
        },
        height: match h {
            Some(h) => h,
            None => 3,
        },
    }
}

/// An id that the counter has yet to give is on no part of the board.
pub proof fn lemma_next_is_fresh(c: CanvasView)
    requires
        c.wf(),
        c.next_id < u64::MAX,
    ensures
        !c.has_node(c.next()),
        !c.has_edge(c.next()),
{
    lemma_find_node(c.nodes, c.next());
    lemma_find_edge(c.edges, c.next());
    assert(past(c.next(), c.next_id)) by {
        assert(numbered((c.next_id + 1) as nat) == c.next());
    }
}

proof fn lemma_numbered_injective(a: nat, b: nat)
    requires
        numbered(a) == numbered(b),
    ensures
        a == b,
{
    assert(numbered(a).skip(1) =~= decimal(a));
    assert(numbered(b).skip(1) =~= decimal(b));
    lemma_decimal_injective(a, b);
}

proof fn lemma_past_less(id: Seq<char>, a: u64, b: u64)
    requires
        a <= b,
        past(id, b),
    ensures
        past(id, a),
{
    let k = choose|k: nat| b < k <= u64::MAX && id == #[trigger] numbered(k);
    assert(a < k && id == numbered(k));
}

proof fn lemma_given_is_not_past(n: u64)
    ensures
        !past(numbered(n as nat), n),
{
    if past(numbered(n as nat), n) {
        let k = choose|k: nat| n < k <= u64::MAX && numbered(n as nat) == #[trigger] numbered(k);
        lemma_numbered_injective(n as nat, k);
    }
}

/// Every change to a board keeps its counter past the ids in use, so a new
/// box or connector never takes the id of another.
pub proof fn lemma_changes_keep_ids_fresh(
    c: CanvasView,
    id: Seq<char>,
    rect: WorldRect,
    from: Seq<char>,
    to: Seq<char>,
    node: NodeView,
    edge: EdgeView,
    text: Seq<char>,
)
    requires
        c.wf(),
        node.id == id,
        edge.id == id,
    ensures
        c.next_id < u64::MAX ==> c.placed(rect).wf() && c.connected(from, to).wf(),
        c.without_node(id).wf(),
        c.without_edge(id).wf(),
        c.with_node(id, node).wf(),
        c.with_edge(id, edge).wf(),
        c.with_text(id, text).wf(),
{
    lemma_find_node(c.nodes, id);
    lemma_find_edge(c.edges, id);
    if c.next_id < u64::MAX {
        let n = (c.next_id + 1) as u64;
        lemma_given_is_not_past(n);
        let p = c.placed(rect);
        assert forall|i: int| 0 <= i < p.nodes.len() implies !past(
            (#[trigger] p.nodes[i]).id,
            n,
        ) by {
            if i < c.nodes.len() && past(p.nodes[i].id, n) {
                lemma_past_less(c.nodes[i].id, c.next_id, n);
            }
        }
        assert forall|i: int| 0 <= i < p.edges.len() implies !past(
            (#[trigger] p.edges[i]).id,
            n,
        ) by {
            if past(p.edges[i].id, n) {
                lemma_past_less(c.edges[i].id, c.next_id, n);
            }
        }
        let q = c.connected(from, to);
        assert forall|i: int| 0 <= i < q.nodes.len() implies !past(
            (#[trigger] q.nodes[i]).id,
            n,
        ) by {
            if past(q.nodes[i].id, n) {
                lemma_past_less(c.nodes[i].id, c.next_id, n);
            }
        }
        assert forall|i: int| 0 <= i < q.edges.len() implies !past(
            (#[trigger] q.edges[i]).id,
            n,
        ) by {
            if i < c.edges.len() && past(q.edges[i].id, n) {
                lemma_past_less(c.edges[i].id, c.next_id, n);
            }
        }
    }
    let a = c.without_node(id);
    assert forall|i: int| 0 <= i < a.nodes.len() implies !past(
        (#[trigger] a.nodes[i]).id,
        c.next_id,
    ) by {
        c.nodes.lemma_filter_contains_rev(not_node(id), a.nodes[i]);
    }
    assert forall|i: int| 0 <= i < a.edges.len() implies !past(
        (#[trigger] a.edges[i]).id,
        c.next_id,
    ) by {
        c.edges.lemma_filter_contains_rev(not_touching(id), a.edges[i]);
    }
    let b = c.without_edge(id);
    assert forall|i: int| 0 <= i < b.edges.len() implies !past(
        (#[trigger] b.edges[i]).id,
        c.next_id,
    ) by {
        c.edges.lemma_filter_contains_rev(not_edge(id), b.edges[i]);
    }
}

/// Writing a color and reading it gives the color back: any preset, and any
/// hex text that does not name a preset.
pub proof fn lemma_color_reads_back(c: ColorView)
    requires
        match c {
            ColorView::Preset(n) => 1 <= n <= 6,
            ColorView::Hex(h) => preset_of(h) is None,
        },
    ensures
        color_of(color_text(c)) == c,
{
}

proof fn lemma_digit_is(c: char, n: nat)
    requires
        n < 10,
        c as u32 == '0' as u32 + n,
    ensures
        digit(n) == c,
{
}

/// Reading a color and writing it gives the text back.
pub proof fn lemma_color_writes_back(s: Seq<char>)
    ensures
        color_text(color_of(s)) == s,
{
    if preset_of(s) is Some {
        let n = preset_of(s)->0;
        assert(decimal(n as nat) == seq![digit(n as nat)]);
        lemma_digit_is(s[0], n as nat);
        assert(color_text(color_of(s)) =~= s);
    }
}

/// Cycling goes through every preset and comes back to none.
pub proof fn lemma_color_cycle(n: u8)
    requires
        1 <= n <= 6,
    ensures
        next_color(None) == Some(ColorView::Preset(1)),
        n < 6 ==> next_color(Some(ColorView::Preset(n))) == Some(ColorView::Preset((n + 1) as u8)),
        n == 6 ==> next_color(Some(ColorView::Preset(n))) is None,
{
}

/// Cycling a shape twice gives it back, and so does reading its name.
pub proof fn lemma_shape_reads_back(s: Shape)
    ensures
        other_shape(other_shape(s)) == s,
        shape_name(s) is Some ==> shape_of(shape_name(s)->0) == s,
        shape_name(s) is None ==> s == Shape::Rectangle && shape_of("rectangle"@) == s,
{
    reveal_strlit("rectangle");
    reveal_strlit("rounded");
    assert("rectangle"@.len() != "rounded"@.len());
}

} // verus!

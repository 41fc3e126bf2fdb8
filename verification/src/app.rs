//! The board editor's state, and the one function that every change to the
//! board goes through, whether it came from a drag, a keystroke or a
//! script.

use ratatui_dnd::Drag;
use vstd::prelude::*;

use crate::app_laws::{lemma_dispatch_keeps, lemma_noted_first};
use crate::canvas_io::{file_of, opt_side_of, read_side, to_file, FileRoot, FileView};
use crate::collab::{collab_view, Collab, CollabView};
use crate::geometry::{max, Rect};
use crate::model::{
    color_view, edge_views, opt_color_of, parse_color, place_rect, shape_of, Canvas, CanvasView,
    CellAnchor, Color, ColorView, Edge, EdgeEnd, EdgeView, NodeView, Shape, ShapeId, WorldRect,
};
use crate::pointer::{drag_state, DragView, EdgeMap, HitMap};
use crate::table::{cells, Cells, Table};
use crate::target::{
    is_selected, selected_view, Corner, HitTarget, HitView, Selected, SelectedView,
};
use crate::text::{opt_view, same_str, views};

verus! {

/// The narrowest a box can be made by hand.
pub const MIN_W: u16 = 5;

/// The lowest a box can be made by hand.
pub const MIN_H: u16 = 3;

/// How many steps can be undone.
pub const UNDO_LIMIT: usize = 100;

/// How soon a second click makes a double click, in nanoseconds.
pub const DOUBLE_CLICK: u64 = 400_000_000;

/// What the keyboard edits.
#[derive(Debug)]
pub enum Mode {
    Normal,
    Editing(Selected),
    /// A table box's grid, open for editing one cell (row, column) at a
    /// time. The whole staged grid is committed back to the box's text as
    /// one table when it is left.
    EditingCell(ShapeId, usize, usize),
}

/// A mode, its ids as characters.
pub ghost enum ModeView {
    Normal,
    Editing(SelectedView),
    EditingCell(Seq<char>, usize, usize),
}

impl View for Mode {
    type V = ModeView;

    open spec fn view(&self) -> ModeView {
        match self {
            Mode::Normal => ModeView::Normal,
            Mode::Editing(t) => ModeView::Editing(t@),
            Mode::EditingCell(id, r, c) => ModeView::EditingCell(id@, *r, *c),
        }
    }
}

impl Clone for Mode {
    fn clone(&self) -> (r: Mode)
        ensures
            r == *self,
    {
        match self {
            Mode::Normal => Mode::Normal,
            Mode::Editing(t) => Mode::Editing(t.clone()),
            Mode::EditingCell(id, r, c) => Mode::EditingCell(id.clone(), *r, *c),
        }
    }
}

/// Every way the board can change. The mouse and key handlers build one of
/// these and hand it to [`App::dispatch`] just like a script does, so a
/// script and a drag can never disagree about what a move means.
#[derive(Debug)]
#[allow(inconsistent_fields)]
pub enum Request {
    /// Place a new text box, top-left at (x, y). `w` and `h` default to the
    /// usual placed size.
    Place { x: i32, y: i32, w: Option<u16>, h: Option<u16> },
    /// Replace a box's text outright.
    SetText { id: ShapeId, text: String },
    /// Move and/or resize a box to an exact rectangle.
    SetRect { id: ShapeId, x: i32, y: i32, w: u16, h: u16 },
    /// A preset "1".."6", a hex string like "#ff8800", or none to clear it.
    SetColor { id: ShapeId, color: Option<String> },
    /// "rectangle" (the default) or "rounded".
    SetShape { id: ShapeId, shape: String },
    /// Draw an arrow from one box to another.
    Connect { from: ShapeId, to: ShapeId },
    /// Remove a box and any connectors touching it.
    Delete { id: ShapeId },
    /// Label a connector, or clear its label.
    SetLabel { id: String, label: Option<String> },
    /// Same color grammar as a box's `SetColor`.
    SetEdgeColor { id: String, color: Option<String> },
    /// Which ends carry an arrowhead: "none" or "arrow", for each end.
    SetEdgeEnds { id: String, from_end: String, to_end: String },
    /// Which side of each box a connector leaves from or arrives at: "top",
    /// "right", "bottom", "left", or none to go back to picking by where
    /// the boxes sit.
    SetEdgeSides { id: String, from_side: Option<String>, to_side: Option<String> },
    /// Remove a connector without touching the boxes it joined.
    DeleteEdge { id: String },
    /// Point one end of a connector at a different box: `end` is "from" or
    /// "to".
    Reattach { id: String, end: String, node: ShapeId },
    /// Select a box or a connector, or clear the selection.
    Select { id: Option<Selected> },
    /// The whole board.
    State,
    /// Write the board to its file.
    Save,
    /// Undo the last change that touched the board.
    Undo,
    /// Redo the last change that undo stepped back through.
    Redo,
}

/// A request, its texts as characters.
#[allow(inconsistent_fields)]
pub ghost enum RequestView {
    Place { x: i32, y: i32, w: Option<u16>, h: Option<u16> },
    SetText { id: Seq<char>, text: Seq<char> },
    SetRect { id: Seq<char>, x: i32, y: i32, w: u16, h: u16 },
    SetColor { id: Seq<char>, color: Option<Seq<char>> },
    SetShape { id: Seq<char>, shape: Seq<char> },
    Connect { from: Seq<char>, to: Seq<char> },
    Delete { id: Seq<char> },
    SetLabel { id: Seq<char>, label: Option<Seq<char>> },
    SetEdgeColor { id: Seq<char>, color: Option<Seq<char>> },
    SetEdgeEnds { id: Seq<char>, from_end: Seq<char>, to_end: Seq<char> },
    SetEdgeSides { id: Seq<char>, from_side: Option<Seq<char>>, to_side: Option<Seq<char>> },
    DeleteEdge { id: Seq<char> },
    Reattach { id: Seq<char>, end: Seq<char>, node: Seq<char> },
    Select { id: Option<SelectedView> },
    State,
    Save,
    Undo,
    Redo,
}

impl View for Request {
    type V = RequestView;

    open spec fn view(&self) -> RequestView {
        match self {
            Request::Place { x, y, w, h } => RequestView::Place { x: *x, y: *y, w: *w, h: *h },
            Request::SetText { id, text } => RequestView::SetText { id: id@, text: text@ },
            Request::SetRect { id, x, y, w, h } => RequestView::SetRect {
                id: id@,
                x: *x,
                y: *y,
                w: *w,
                h: *h,
            },
            Request::SetColor { id, color } => RequestView::SetColor {
                id: id@,
                color: opt_view(*color),
            },
            Request::SetShape { id, shape } => RequestView::SetShape { id: id@, shape: shape@ },
            Request::Connect { from, to } => RequestView::Connect { from: from@, to: to@ },
            Request::Delete { id } => RequestView::Delete { id: id@ },
            Request::SetLabel { id, label } => RequestView::SetLabel {
                id: id@,
                label: opt_view(*label),
            },
            Request::SetEdgeColor { id, color } => RequestView::SetEdgeColor {
                id: id@,
                color: opt_view(*color),
            },
            Request::SetEdgeEnds { id, from_end, to_end } => RequestView::SetEdgeEnds {
                id: id@,
                from_end: from_end@,
                to_end: to_end@,
            },
            Request::SetEdgeSides { id, from_side, to_side } => RequestView::SetEdgeSides {
                id: id@,
                from_side: opt_view(*from_side),
                to_side: opt_view(*to_side),
            },
            Request::DeleteEdge { id } => RequestView::DeleteEdge { id: id@ },
            Request::Reattach { id, end, node } => RequestView::Reattach {
                id: id@,
                end: end@,
                node: node@,
            },
            Request::Select { id } => RequestView::Select { id: selected_view(*id) },
            Request::State => RequestView::State,
            Request::Save => RequestView::Save,
            Request::Undo => RequestView::Undo,
            Request::Redo => RequestView::Redo,
        }
    }
}

impl RequestView {
    /// Whether a request changes the board in a way that undo can step back
    /// through.
    pub open spec fn changes(self) -> bool {
        !(self is Select || self is State || self is Save || self is Undo || self is Redo)
    }

    /// Whether a request needs a new id.
    pub open spec fn needs_id(self) -> bool {
        self is Place || self is Connect
    }
}

impl Request {
    /// Whether this changes the board in a way that undo should be able to
    /// step back through.
    pub fn mutates(&self) -> (r: bool)
        ensures
            r == self@.changes(),
    {
        match self {
            Request::Select { .. } => false,
            Request::State => false,
            Request::Save => false,
            Request::Undo => false,
            Request::Redo => false,
            _ => true,
        }
    }
}

/// What a request is answered with.
#[derive(Debug)]
pub enum Response {
    Placed { id: ShapeId },
    Done,
    State { board: FileRoot },
    Saved { path: String },
    Undone { done: bool },
    Redone { done: bool },
}

/// An answer, its texts as characters.
pub ghost enum ResponseView {
    Placed { id: Seq<char> },
    Done,
    State { board: FileView },
    Saved { path: Seq<char> },
    Undone { done: bool },
    Redone { done: bool },
}

impl View for Response {
    type V = ResponseView;

    open spec fn view(&self) -> ResponseView {
        match self {
            Response::Placed { id } => ResponseView::Placed { id: id@ },
            Response::Done => ResponseView::Done,
            Response::State { board } => ResponseView::State { board: board@ },
            Response::Saved { path } => ResponseView::Saved { path: path@ },
            Response::Undone { done } => ResponseView::Undone { done: *done },
            Response::Redone { done } => ResponseView::Redone { done: *done },
        }
    }
}

/// The view of an answer or a message.
pub open spec fn reply_view(r: Result<Response, String>) -> Result<ResponseView, Seq<char>> {
    match r {
        Ok(resp) => Ok(resp@),
        Err(msg) => Err(msg@),
    }
}

/// What is still to be mirrored into the board's merge state.
#[derive(Debug)]
pub enum Sync {
    Node(ShapeId),
    Edge(String),
    /// Everything: what undo and redo ask for.
    All,
}

/// What is to be mirrored, its id as characters.
pub ghost enum SyncView {
    Node(Seq<char>),
    Edge(Seq<char>),
    All,
}

impl View for Sync {
    type V = SyncView;

    open spec fn view(&self) -> SyncView {
        match self {
            Sync::Node(id) => SyncView::Node(id@),
            Sync::Edge(id) => SyncView::Edge(id@),
            Sync::All => SyncView::All,
        }
    }
}

/// The views of what is to be mirrored.
pub open spec fn sync_views(s: Seq<Sync>) -> Seq<SyncView> {
    Seq::new(s.len(), |i: int| s[i]@)
}

/// The boards on an undo or redo stack.
pub open spec fn canvas_views(s: Seq<Canvas>) -> Seq<CanvasView> {
    Seq::new(s.len(), |i: int| s[i]@)
}

pub struct App {
    pub canvas: Canvas,
    pub drag: Drag<HitTarget>,
    pub hits: HitMap,
    pub edge_hits: EdgeMap,
    pub selected: Option<Selected>,
    /// Which box or connector's color picker is open: always the selected
    /// one, since the button that opens it only renders next to that.
    pub color_picker: Option<Selected>,
    /// The swatch that the cursor is over right now: its color previews on
    /// the box or connector while hovered. `Some((target, None))` previews
    /// clearing the color.
    pub hover_swatch: Option<(Selected, Option<Color>)>,
    /// The table cell that the cursor is over.
    pub hover_cell: Option<(ShapeId, CellAnchor)>,
    pub mode: Mode,
    pub editing_text: String,
    /// The whole grid staged while a cell is open; `editing_text` mirrors
    /// the one cell that is live. Empty outside that mode.
    pub editing_table: Table,
    pub should_quit: bool,
    pub save_path: Option<String>,
    pub status: String,
    /// Refreshed every frame, so that a height grown while typing has
    /// something to clamp against.
    pub canvas_area: Rect,
    /// What part of the board is on screen: the board's cell at the canvas
    /// area's corner.
    pub camera: (i32, i32),
    pub undo_stack: Vec<Canvas>,
    pub redo_stack: Vec<Canvas>,
    pub grab_offset: (u16, u16),
    pub resize_origin: Option<(ShapeId, Corner, WorldRect)>,
    /// A rectangle being dragged out on empty canvas: the press point, and
    /// the point that the cursor is at now.
    pub drawing: Option<((u16, u16), (u16, u16))>,
    pub press_on_edge: Option<(String, u16, u16)>,
    /// What was last clicked and when, so a second click on the same thing
    /// soon after opens it for editing.
    pub last_click: Option<(Selected, u64)>,
    /// The board's live merge state. None with no save path.
    pub collab: Option<Collab>,
    /// What is still to be mirrored into the merge state.
    pub pending: Vec<Sync>,
    /// Whether the board is to be written to its file.
    pub wants_save: bool,
}

/// The editor's state, its texts as characters.
#[verifier::ext_equal]
pub ghost struct AppView {
    pub canvas: CanvasView,
    pub drag: DragView<HitView>,
    pub hits: Seq<(Rect, HitView)>,
    pub edge_hits: Seq<(Rect, Seq<char>)>,
    pub selected: Option<SelectedView>,
    pub color_picker: Option<SelectedView>,
    pub hover_swatch: Option<(SelectedView, Option<ColorView>)>,
    pub hover_cell: Option<(Seq<char>, CellAnchor)>,
    pub mode: ModeView,
    pub editing_text: Seq<char>,
    pub table: Cells,
    pub should_quit: bool,
    pub save_path: Option<Seq<char>>,
    pub status: Seq<char>,
    pub area: Rect,
    pub camera: (i32, i32),
    pub undo: Seq<CanvasView>,
    pub redo: Seq<CanvasView>,
    pub grab: (u16, u16),
    pub resize: Option<(Seq<char>, Corner, WorldRect)>,
    pub drawing: Option<((u16, u16), (u16, u16))>,
    pub press: Option<(Seq<char>, u16, u16)>,
    pub last_click: Option<(SelectedView, u64)>,
    pub collab: Option<CollabView>,
    pub pending: Seq<SyncView>,
    pub wants_save: bool,
}

impl View for App {
    type V = AppView;

    open spec fn view(&self) -> AppView {
        AppView {
            canvas: self.canvas@,
            drag: drag_state(self.drag),
            hits: self.hits@,
            edge_hits: self.edge_hits@,
            selected: selected_view(self.selected),
            color_picker: selected_view(self.color_picker),
            hover_swatch: match self.hover_swatch {
                Some((t, c)) => Some((t@, color_view(c))),
                None => None,
            },
            hover_cell: match self.hover_cell {
                Some((id, a)) => Some((id@, a)),
                None => None,
            },
            mode: self.mode@,
            editing_text: self.editing_text@,
            table: cells(self.editing_table@),
            should_quit: self.should_quit,
            save_path: opt_view(self.save_path),
            status: self.status@,
            area: self.canvas_area,
            camera: self.camera,
            undo: canvas_views(self.undo_stack@),
            redo: canvas_views(self.redo_stack@),
            grab: self.grab_offset,
            resize: match self.resize_origin {
                Some((id, c, r)) => Some((id@, c, r)),
                None => None,
            },
            drawing: self.drawing,
            press: match self.press_on_edge {
                Some((id, x, y)) => Some((id@, x, y)),
                None => None,
            },
            last_click: match self.last_click {
                Some((t, at)) => Some((t@, at)),
                None => None,
            },
            collab: collab_view(self.collab),
            pending: sync_views(self.pending@),
            wants_save: self.wants_save,
        }
    }
}

/// A stack cut to the last `UNDO_LIMIT` boards, one at a time.
pub open spec fn limited(s: Seq<CanvasView>) -> Seq<CanvasView> {
    if s.len() > UNDO_LIMIT {
        s.skip(1)
    } else {
        s
    }
}

/// The end that a text names.
pub open spec fn end_of(s: Seq<char>) -> EdgeEnd {
    if s == "arrow"@ {
        EdgeEnd::Arrow
    } else {
        EdgeEnd::Plain
    }
}

/// An end's name.
pub open spec fn end_name(e: EdgeEnd) -> Seq<char> {
    match e {
        EdgeEnd::Plain => "none"@,
        EdgeEnd::Arrow => "arrow"@,
    }
}

/// A label, none where it is empty.
pub open spec fn kept_label(label: Option<Seq<char>>) -> Option<Seq<char>> {
    match label {
        Some(l) => if l.len() == 0 {
            None
        } else {
            Some(l)
        },
        None => None,
    }
}

/// The ids of the connectors that touch a box, in order.
pub open spec fn touching(edges: Seq<EdgeView>, id: Seq<char>) -> Seq<Seq<char>>
    decreases edges.len(),
{
    if edges.len() == 0 {
        Seq::empty()
    } else if edges.last().from == id || edges.last().to == id {
        touching(edges.drop_last(), id).push(edges.last().id)
    } else {
        touching(edges.drop_last(), id)
    }
}

/// What is to be mirrored for some connectors.
pub open spec fn edge_syncs(ids: Seq<Seq<char>>) -> Seq<SyncView> {
    Seq::new(ids.len(), |i: int| SyncView::Edge(ids[i]))
}

/// What `{:?}` writes for a string.
pub uninterp spec fn debug_text(s: Seq<char>) -> Seq<char>;

/// Formats a string with `{:?}` of std: quoted and escaped, a function of
/// the string alone.
#[verifier::external_body]
fn quote(s: &str) -> (r: String)
    ensures
        r@ == debug_text(s@),
{
    format!("{s:?}")
}

pub open spec fn no_node(id: Seq<char>) -> Seq<char> {
    "no such node: "@ + id
}

pub open spec fn no_edge(id: Seq<char>) -> Seq<char> {
    "no such connector: "@ + id
}

pub open spec fn bad_end(end: Seq<char>) -> Seq<char> {
    "end must be \"from\" or \"to\", got "@ + debug_text(end)
}

impl AppView {
    /// Whether the merge state, where there is one, is one of boards.
    pub open spec fn sound(self) -> bool {
        self.collab matches Some(m) ==> m.sound
    }

    /// What holds of the editor at all times: no board in it has an id that
    /// its counter has yet to give, its merge state is one of boards, and a
    /// rectangle being drawn ends on the screen.
    pub open spec fn wf(self) -> bool {
        &&& self.sound()
        &&& self.canvas.wf()
        &&& forall|i: int| 0 <= i < self.undo.len() ==> (#[trigger] self.undo[i]).wf()
        &&& forall|i: int| 0 <= i < self.redo.len() ==> (#[trigger] self.redo[i]).wf()
        &&& match self.drawing {
            Some((start, end)) => start.0 < u16::MAX && start.1 < u16::MAX && end.0 < u16::MAX
                && end.1 < u16::MAX,
            None => true,
        }
    }

    /// The state with the board noted for undo.
    pub open spec fn noted(self) -> AppView {
        AppView { undo: limited(self.undo.push(self.canvas)), redo: Seq::empty(), ..self }
    }

    /// The state after an undo, and whether there was anything to undo.
    pub open spec fn undone(self) -> (AppView, bool) {
        if self.undo.len() == 0 {
            (AppView { status: "nothing to undo"@, ..self }, false)
        } else {
            (
                AppView {
                    canvas: self.undo.last(),
                    undo: self.undo.drop_last(),
                    redo: self.redo.push(self.canvas),
                    selected: None,
                    mode: ModeView::Normal,
                    status: "undone"@,
                    pending: self.pending.push(SyncView::All),
                    ..self
                },
                true,
            )
        }
    }

    /// The state after a redo, and whether there was anything to redo.
    pub open spec fn redone(self) -> (AppView, bool) {
        if self.redo.len() == 0 {
            (AppView { status: "nothing to redo"@, ..self }, false)
        } else {
            (
                AppView {
                    canvas: self.redo.last(),
                    redo: self.redo.drop_last(),
                    undo: self.undo.push(self.canvas),
                    selected: None,
                    mode: ModeView::Normal,
                    status: "redone"@,
                    pending: self.pending.push(SyncView::All),
                    ..self
                },
                true,
            )
        }
    }

    /// The state after a save was asked for: flagged for writing, or a
    /// message where there is no file.
    pub open spec fn saving(self) -> AppView {
        match self.save_path {
            Some(_) => AppView { wants_save: true, ..self },
            None => AppView {
                status: "no file given on the command line — nothing to save to"@,
                ..self
            },
        }
    }

    /// The state with a changed board, and one box to mirror.
    pub open spec fn with_node_change(self, canvas: CanvasView, id: Seq<char>) -> AppView {
        AppView { canvas, pending: self.pending.push(SyncView::Node(id)), ..self }
    }

    /// The state with a changed board, and one connector to mirror.
    pub open spec fn with_edge_change(self, canvas: CanvasView, id: Seq<char>) -> AppView {
        AppView { canvas, pending: self.pending.push(SyncView::Edge(id)), ..self }
    }

    /// What a change of one box comes to, given the box after the change.
    pub open spec fn changed_node(self, id: Seq<char>, node: NodeView) -> (
        AppView,
        Result<ResponseView, Seq<char>>,
    ) {
        if self.canvas.has_node(id) {
            (self.with_node_change(self.canvas.with_node(id, node), id), Ok(ResponseView::Done))
        } else {
            (self, Err(no_node(id)))
        }
    }

    /// What a change of one connector comes to, given the connector after
    /// the change.
    pub open spec fn changed_edge(self, id: Seq<char>, edge: EdgeView) -> (
        AppView,
        Result<ResponseView, Seq<char>>,
    ) {
        if self.canvas.has_edge(id) {
            (self.with_edge_change(self.canvas.with_edge(id, edge), id), Ok(ResponseView::Done))
        } else {
            (self, Err(no_edge(id)))
        }
    }

    /// What pointing an end of a connector at another box comes to.
    pub open spec fn reattached(self, id: Seq<char>, end: Seq<char>, node: Seq<char>) -> (
        AppView,
        Result<ResponseView, Seq<char>>,
    ) {
        let itself = "can't connect a box to itself"@;
        if !self.canvas.has_node(node) {
            (self, Err(no_node(node)))
        } else if !self.canvas.has_edge(id) {
            (self, Err(no_edge(id)))
        } else {
            let edge = self.canvas.edge(id)->0;
            if end == "from"@ {
                if edge.to == node {
                    (self, Err(itself))
                } else {
                    self.changed_edge(id, EdgeView { from: node, ..edge })
                }
            } else if end == "to"@ {
                if edge.from == node {
                    (self, Err(itself))
                } else {
                    self.changed_edge(id, EdgeView { to: node, ..edge })
                }
            } else {
                (self, Err(bad_end(end)))
            }
        }
    }

    /// The selection without a box or connector that went away.
    pub open spec fn without_selection(self, gone: SelectedView) -> Option<SelectedView> {
        if self.selected == Some(gone) {
            None
        } else {
            self.selected
        }
    }

    /// What a request comes to once the board is noted for undo.
    #[verifier::opaque]
    pub open spec fn applied(self, req: RequestView) -> (
        AppView,
        Result<ResponseView, Seq<char>>,
    ) {
        let c = self.canvas;
        match req {
            RequestView::Place { x, y, w, h } => (
                self.with_node_change(c.placed(place_rect(x, y, w, h)), c.next()),
                Ok(ResponseView::Placed { id: c.next() }),
            ),
            RequestView::SetText { id, text } => if c.has_node(id) {
                (self.with_node_change(c.with_text(id, text), id), Ok(ResponseView::Done))
            } else {
                (self, Err(no_node(id)))
            },
            RequestView::SetRect { id, x, y, w, h } => {
                let rect = WorldRect {
                    x,
                    y,
                    width: max(w as int, 1) as u16,
                    height: max(h as int, 1) as u16,
                };
                self.changed_node(id, NodeView { rect, ..c.node(id)->0 })
            },
            RequestView::SetColor { id, color } => self.changed_node(
                id,
                NodeView { color: opt_color_of(color), ..c.node(id)->0 },
            ),
            RequestView::SetShape { id, shape } => self.changed_node(
                id,
                NodeView { shape: shape_of(shape), ..c.node(id)->0 },
            ),
            RequestView::Connect { from, to } => if !c.has_node(from) {
                (self, Err(no_node(from)))
            } else if !c.has_node(to) {
                (self, Err(no_node(to)))
            } else {
                (self.with_edge_change(c.connected(from, to), c.next()), Ok(ResponseView::Done))
            },
            RequestView::Delete { id } => (
                AppView {
                    canvas: c.without_node(id),
                    selected: self.without_selection(SelectedView::Node(id)),
                    pending: self.pending.push(SyncView::Node(id)) + edge_syncs(
                        touching(c.edges, id),
                    ),
                    ..self
                },
                Ok(ResponseView::Done),
            ),
            RequestView::SetLabel { id, label } => self.changed_edge(
                id,
                EdgeView { label: kept_label(label), ..c.edge(id)->0 },
            ),
            RequestView::SetEdgeColor { id, color } => self.changed_edge(
                id,
                EdgeView { color: opt_color_of(color), ..c.edge(id)->0 },
            ),
            RequestView::SetEdgeEnds { id, from_end, to_end } => self.changed_edge(
                id,
                EdgeView {
                    from_end: end_of(from_end),
                    to_end: end_of(to_end),
                    ..c.edge(id)->0
                },
            ),
            RequestView::SetEdgeSides { id, from_side, to_side } => self.changed_edge(
                id,
                EdgeView {
                    from_side: opt_side_of(from_side),
                    to_side: opt_side_of(to_side),
                    ..c.edge(id)->0
                },
            ),
            RequestView::DeleteEdge { id } => (
                AppView {
                    canvas: c.without_edge(id),
                    selected: self.without_selection(SelectedView::Edge(id)),
                    pending: self.pending.push(SyncView::Edge(id)),
                    ..self
                },
                Ok(ResponseView::Done),
            ),
            RequestView::Reattach { id, end, node } => self.reattached(id, end, node),
            RequestView::Select { id } => (
                AppView { selected: id, ..self },
                Ok(ResponseView::Done),
            ),
            RequestView::State => (self, Ok(ResponseView::State { board: file_of(c) })),
            RequestView::Save => (
                self.saving(),
                Ok(
                    ResponseView::Saved {
                        path: match self.save_path {
                            Some(p) => p,
                            None => Seq::empty(),
                        },
                    },
                ),
            ),
            RequestView::Undo => (
                self.undone().0,
                Ok(ResponseView::Undone { done: self.undone().1 }),
            ),
            RequestView::Redo => (
                self.redone().0,
                Ok(ResponseView::Redone { done: self.redone().1 }),
            ),
        }
    }

    /// What a request comes to. A change that is made is noted for undo; one
    /// that is refused is not.
    pub open spec fn dispatched(self, req: RequestView) -> (
        AppView,
        Result<ResponseView, Seq<char>>,
    ) {
        if req.changes() && self.applied(req).1 is Ok {
            self.noted().applied(req)
        } else {
            self.applied(req)
        }
    }
}

/// The end that a text names.
pub fn parse_edge_end(s: &str) -> (r: EdgeEnd)
    ensures
        r == end_of(s@),
{
    if same_str(s, "arrow") {
        EdgeEnd::Arrow
    } else {
        EdgeEnd::Plain
    }
}

/// An end's name.
pub fn edge_end_to_string(e: EdgeEnd) -> (r: &'static str)
    ensures
        r@ == end_name(e),
{
    match e {
        EdgeEnd::Plain => "none",
        EdgeEnd::Arrow => "arrow",
    }
}

fn no_such_node(id: &str) -> (r: String)
    ensures
        r@ == no_node(id@),
{
    let mut s: String = "no such node: ".to_owned();
    s.append(id);
    s
}

fn no_such_edge(id: &str) -> (r: String)
    ensures
        r@ == no_edge(id@),
{
    let mut s: String = "no such connector: ".to_owned();
    s.append(id);
    s
}

fn keep_label(label: Option<String>) -> (r: Option<String>)
    ensures
        opt_view(r) == kept_label(opt_view(label)),
{
    match label {
        Some(l) => if same_str(l.as_str(), "") {
            proof {
                reveal_strlit("");
            }
            None
        } else {
            proof {
                reveal_strlit("");
                if l@.len() == 0 {
                    assert(l@ =~= ""@);
                }
            }
            Some(l)
        },
        None => None,
    }
}

/// The ids of the connectors that touch a box.
fn find_touching(edges: &Vec<Edge>, id: &str) -> (r: Vec<String>)
    ensures
        views(r@) == touching(edge_views(edges@), id@),
{
    let ghost all = edge_views(edges@);
    let mut out: Vec<String> = Vec::new();
    let mut i: usize = 0;
    proof {
        assert(views(out@) =~= touching(all.take(0), id@));
    }
    while i < edges.len()
        invariant
            i <= edges@.len(),
            all == edge_views(edges@),
            views(out@) == touching(all.take(i as int), id@),
        decreases edges@.len() - i,
    {
        let ghost before = views(out@);
        proof {
            assert(all.take(i + 1).drop_last() =~= all.take(i as int));
            assert(all.take(i + 1).last() == edges@[i as int]@);
        }
        if same_str(edges[i].from.as_str(), id) || same_str(edges[i].to.as_str(), id) {
            out.push(edges[i].id.clone());
            proof {
                assert(views(out@) =~= before.push(edges@[i as int].id@));
            }
        }
        i += 1;
    }
    proof {
        assert(all.take(all.len() as int) =~= all);
    }
    out
}

impl App {
    /// The hit maps hold what they need.
    pub open spec fn maps_wf(&self) -> bool {
        self.hits.wf() && self.edge_hits.wf()
    }

    /// What holds of the editor at all times.
    pub open spec fn wf(&self) -> bool {
        self.maps_wf() && self@.wf()
    }

    /// Notes the board for undo.
    pub fn push_undo(&mut self)
        ensures
            final(self)@ == old(self)@.noted(),
            final(self).maps_wf() == old(self).maps_wf(),
    {
        let copy: Canvas = self.canvas.clone();
        self.note(copy);
    }

    /// Notes a board for undo.
    fn note(&mut self, copy: Canvas)
        ensures
            final(self)@ == (AppView {
                undo: limited(old(self)@.undo.push(copy@)),
                redo: Seq::empty(),
                ..old(self)@
            }),
            final(self).maps_wf() == old(self).maps_wf(),
    {
        let ghost before = self@;
        let ghost shown = copy@;
        self.undo_stack.push(copy);
        proof {
            assert(canvas_views(self.undo_stack@) =~= before.undo.push(shown));
        }
        if self.undo_stack.len() > UNDO_LIMIT {
            let ghost full = self.undo_stack@;
            let _first: Canvas = self.undo_stack.remove(0);
            proof {
                assert(canvas_views(self.undo_stack@) =~= canvas_views(full).skip(1));
            }
        }
        self.redo_stack = Vec::new();
        proof {
            assert(self@.redo =~= Seq::empty());
        }
    }

    /// Steps back to the board before the last change.
    pub fn undo(&mut self) -> (r: bool)
        ensures
            (final(self)@, r) == old(self)@.undone(),
            final(self).maps_wf() == old(self).maps_wf(),
    {
        let ghost before = self@;
        let ghost stack = self.undo_stack@;
        let ghost redos = self.redo_stack@;
        match self.undo_stack.pop() {
            None => {
                self.status = "nothing to undo".to_owned();
                proof {
                    assert(self@ =~= before.undone().0);
                }
                false
            },
            Some(prev) => {
                let ghost shown = prev@;
                let current: Canvas = self.canvas.clone();
                let ghost now = current@;
                self.redo_stack.push(current);
                self.canvas = prev;
                self.selected = None;
                self.mode = Mode::Normal;
                self.status = "undone".to_owned();
                self.pending.push(Sync::All);
                proof {
                    assert(stack.last()@ == shown);
                    assert(canvas_views(self.undo_stack@) =~= before.undo.drop_last());
                    assert(canvas_views(self.redo_stack@) =~= before.redo.push(now));
                    assert(sync_views(self.pending@) =~= before.pending.push(SyncView::All));
                    assert(before.undo.last() == shown);
                    assert(self@ =~= before.undone().0);
                }
                true
            },
        }
    }

    /// Steps forward to the board that the last undo stepped back from.
    pub fn redo(&mut self) -> (r: bool)
        ensures
            (final(self)@, r) == old(self)@.redone(),
            final(self).maps_wf() == old(self).maps_wf(),
    {
        let ghost before = self@;
        let ghost stack = self.redo_stack@;
        match self.redo_stack.pop() {
            None => {
                self.status = "nothing to redo".to_owned();
                proof {
                    assert(self@ =~= before.redone().0);
                }
                false
            },
            Some(next) => {
                let ghost shown = next@;
                let current: Canvas = self.canvas.clone();
                let ghost now = current@;
                self.undo_stack.push(current);
                self.canvas = next;
                self.selected = None;
                self.mode = Mode::Normal;
                self.status = "redone".to_owned();
                self.pending.push(Sync::All);
                proof {
                    assert(stack.last()@ == shown);
                    assert(canvas_views(self.redo_stack@) =~= before.redo.drop_last());
                    assert(canvas_views(self.undo_stack@) =~= before.undo.push(now));
                    assert(sync_views(self.pending@) =~= before.pending.push(SyncView::All));
                    assert(before.redo.last() == shown);
                    assert(self@ =~= before.redone().0);
                }
                true
            },
        }
    }

    /// Asks for the board to be written to its file.
    pub fn save(&mut self)
        ensures
            final(self)@ == old(self)@.saving(),
            final(self).maps_wf() == old(self).maps_wf(),
    {
        if self.save_path.is_some() {
            self.wants_save = true;
        } else {
            self.status = "no file given on the command line — nothing to save to".to_owned();
        }
    }

    /// Notes how writing the board went.
    pub fn finish_save(&mut self, error: Option<String>)
        ensures
            final(self)@ == (AppView {
                wants_save: false,
                status: match (opt_view(error), old(self)@.save_path) {
                    (Some(e), _) => "save failed: "@ + e,
                    (None, Some(path)) => "saved "@ + path,
                    (None, None) => old(self)@.status,
                },
                ..old(self)@
            }),
            final(self).maps_wf() == old(self).maps_wf(),
    {
        self.wants_save = false;
        match error {
            Some(e) => {
                let mut s: String = "save failed: ".to_owned();
                s.append(e.as_str());
                self.status = s;
            },
            None => {
                match &self.save_path {
                    Some(path) => {
                        let mut s: String = "saved ".to_owned();
                        s.append(path.as_str());
                        self.status = s;
                    },
                    None => {},
                }
            },
        }
    }

    fn touch_node(&mut self, id: String)
        ensures
            final(self)@ == (AppView {
                pending: old(self)@.pending.push(SyncView::Node(id@)),
                ..old(self)@
            }),
            final(self).maps_wf() == old(self).maps_wf(),
    {
        let ghost before = self@;
        let ghost shown = id@;
        self.pending.push(Sync::Node(id));
        proof {
            assert(sync_views(self.pending@) =~= before.pending.push(SyncView::Node(shown)));
        }
    }

    fn touch_edge(&mut self, id: String)
        ensures
            final(self)@ == (AppView {
                pending: old(self)@.pending.push(SyncView::Edge(id@)),
                ..old(self)@
            }),
            final(self).maps_wf() == old(self).maps_wf(),
    {
        let ghost before = self@;
        let ghost shown = id@;
        self.pending.push(Sync::Edge(id));
        proof {
            assert(sync_views(self.pending@) =~= before.pending.push(SyncView::Edge(shown)));
        }
    }

    fn apply_place(&mut self, x: i32, y: i32, w: Option<u16>, h: Option<u16>) -> (r: Result<
        Response,
        String,
    >)
        requires
            old(self).canvas.next_id < u64::MAX,
        ensures
            (final(self)@, reply_view(r)) == old(self)@.applied(
                RequestView::Place { x, y, w, h },
            ),
            final(self).maps_wf() == old(self).maps_wf(),
    {
        proof {
            reveal(AppView::applied);
        }
        let id: String = self.canvas.place_text(x, y, w, h);
        self.touch_node(id.clone());
        Ok(Response::Placed { id })
    }

    fn apply_text(&mut self, id: String, text: String) -> (r: Result<Response, String>)
        ensures
            (final(self)@, reply_view(r)) == old(self)@.applied(
                RequestView::SetText { id: id@, text: text@ },
            ),
            final(self).maps_wf() == old(self).maps_wf(),
    {
        proof {
            reveal(AppView::applied);
        }
        if self.canvas.node(id.as_str()).is_none() {
            return Err(no_such_node(id.as_str()));
        }
        let ghost wanted = text@;
        let replace = |_before: String| -> (after: String)
            ensures
                after@ == wanted,
            {
                text
            };
        self.canvas.edit_text(id.as_str(), replace);
        self.touch_node(id);
        Ok(Response::Done)
    }

    fn apply_rect(&mut self, id: String, x: i32, y: i32, w: u16, h: u16) -> (r: Result<
        Response,
        String,
    >)
        ensures
            (final(self)@, reply_view(r)) == old(self)@.applied(
                RequestView::SetRect { id: id@, x, y, w, h },
            ),
            final(self).maps_wf() == old(self).maps_wf(),
    {
        proof {
            reveal(AppView::applied);
        }
        let width: u16 = if w < 1 {
            1
        } else {
            w
        };
        let height: u16 = if h < 1 {
            1
        } else {
            h
        };
        match self.canvas.node_mut(id.as_str()) {
            None => {
                return Err(no_such_node(id.as_str()));
            },
            Some(node) => {
                node.rect = WorldRect::new(x, y, width, height);
            },
        }
        self.touch_node(id);
        Ok(Response::Done)
    }

    fn apply_color(&mut self, id: String, color: Option<String>) -> (r: Result<Response, String>)
        ensures
            (final(self)@, reply_view(r)) == old(self)@.applied(
                RequestView::SetColor { id: id@, color: opt_view(color) },
            ),
            final(self).maps_wf() == old(self).maps_wf(),
    {
        proof {
            reveal(AppView::applied);
        }
        match self.canvas.node_mut(id.as_str()) {
            None => {
                return Err(no_such_node(id.as_str()));
            },
            Some(node) => {
                node.color = parse_color(&color);
            },
        }
        self.touch_node(id);
        Ok(Response::Done)
    }

    fn apply_shape(&mut self, id: String, shape: String) -> (r: Result<Response, String>)
        ensures
            (final(self)@, reply_view(r)) == old(self)@.applied(
                RequestView::SetShape { id: id@, shape: shape@ },
            ),
            final(self).maps_wf() == old(self).maps_wf(),
    {
        proof {
            reveal(AppView::applied);
        }
        match self.canvas.node_mut(id.as_str()) {
            None => {
                return Err(no_such_node(id.as_str()));
            },
            Some(node) => {
                node.shape = Shape::parse(shape.as_str());
            },
        }
        self.touch_node(id);
        Ok(Response::Done)
    }

    fn apply_connect(&mut self, from: String, to: String) -> (r: Result<Response, String>)
        requires
            old(self).canvas.next_id < u64::MAX,
        ensures
            (final(self)@, reply_view(r)) == old(self)@.applied(
                RequestView::Connect { from: from@, to: to@ },
            ),
            final(self).maps_wf() == old(self).maps_wf(),
    {
        proof {
            reveal(AppView::applied);
        }
        if self.canvas.node(from.as_str()).is_none() {
            return Err(no_such_node(from.as_str()));
        }
        if self.canvas.node(to.as_str()).is_none() {
            return Err(no_such_node(to.as_str()));
        }
        let id: String = self.canvas.connect(from, to);
        self.touch_edge(id);
        Ok(Response::Done)
    }

    /// Clears the selection if it is the given one.
    fn deselect(&mut self, gone: &Selected)
        ensures
            final(self)@ == (AppView {
                selected: old(self)@.without_selection(gone@),
                ..old(self)@
            }),
            final(self).maps_wf() == old(self).maps_wf(),
    {
        if is_selected(&self.selected, gone) {
            self.selected = None;
        }
    }

    fn apply_delete(&mut self, id: String) -> (r: Result<Response, String>)
        ensures
            (final(self)@, reply_view(r)) == old(self)@.applied(RequestView::Delete { id: id@ }),
            final(self).maps_wf() == old(self).maps_wf(),
    {
        proof {
            reveal(AppView::applied);
        }
        let ghost before = self@;
        let ghost shown = id@;
        let removed: Vec<String> = find_touching(&self.canvas.edges, id.as_str());
        self.canvas.delete(id.as_str());
        let gone: Selected = Selected::Node(id.clone());
        self.deselect(&gone);
        self.touch_node(id);
        let ghost base = self@;
        let ghost ids = views(removed@);
        let mut i: usize = 0;
        proof {
            assert(self@.pending =~= base.pending + edge_syncs(ids.take(0)));
        }
        while i < removed.len()
            invariant
                i <= removed@.len(),
                ids == views(removed@),
                self@ == (AppView {
                    pending: base.pending + edge_syncs(ids.take(i as int)),
                    ..base
                }),
                self.maps_wf() == old(self).maps_wf(),
            decreases removed@.len() - i,
        {
            self.touch_edge(removed[i].clone());
            i += 1;
            proof {
                assert(self@.pending =~= base.pending + edge_syncs(ids.take(i as int)));
            }
        }
        proof {
            assert(ids.take(ids.len() as int) =~= ids);
            assert(self@ =~= before.applied(RequestView::Delete { id: shown }).0);
        }
        Ok(Response::Done)
    }

    fn apply_label(&mut self, id: String, label: Option<String>) -> (r: Result<Response, String>)
        ensures
            (final(self)@, reply_view(r)) == old(self)@.applied(
                RequestView::SetLabel { id: id@, label: opt_view(label) },
            ),
            final(self).maps_wf() == old(self).maps_wf(),
    {
        proof {
            reveal(AppView::applied);
        }
        match self.canvas.edge_mut(id.as_str()) {
            None => {
                return Err(no_such_edge(id.as_str()));
            },
            Some(edge) => {
                edge.label = keep_label(label);
            },
        }
        self.touch_edge(id);
        Ok(Response::Done)
    }

    fn apply_edge_color(&mut self, id: String, color: Option<String>) -> (r: Result<
        Response,
        String,
    >)
        ensures
            (final(self)@, reply_view(r)) == old(self)@.applied(
                RequestView::SetEdgeColor { id: id@, color: opt_view(color) },
            ),
            final(self).maps_wf() == old(self).maps_wf(),
    {
        proof {
            reveal(AppView::applied);
        }
        match self.canvas.edge_mut(id.as_str()) {
            None => {
                return Err(no_such_edge(id.as_str()));
            },
            Some(edge) => {
                edge.color = parse_color(&color);
            },
        }
        self.touch_edge(id);
        Ok(Response::Done)
    }

    fn apply_ends(&mut self, id: String, from_end: String, to_end: String) -> (r: Result<
        Response,
        String,
    >)
        ensures
            (final(self)@, reply_view(r)) == old(self)@.applied(
                RequestView::SetEdgeEnds { id: id@, from_end: from_end@, to_end: to_end@ },
            ),
            final(self).maps_wf() == old(self).maps_wf(),
    {
        proof {
            reveal(AppView::applied);
        }
        match self.canvas.edge_mut(id.as_str()) {
            None => {
                return Err(no_such_edge(id.as_str()));
            },
            Some(edge) => {
                edge.from_end = parse_edge_end(from_end.as_str());
                edge.to_end = parse_edge_end(to_end.as_str());
            },
        }
        self.touch_edge(id);
        Ok(Response::Done)
    }

    fn apply_sides(&mut self, id: String, from_side: Option<String>, to_side: Option<String>) -> (r:
        Result<Response, String>)
        ensures
            (final(self)@, reply_view(r)) == old(self)@.applied(
                RequestView::SetEdgeSides {
                    id: id@,
                    from_side: opt_view(from_side),
                    to_side: opt_view(to_side),
                },
            ),
            final(self).maps_wf() == old(self).maps_wf(),
    {
        proof {
            reveal(AppView::applied);
        }
        match self.canvas.edge_mut(id.as_str()) {
            None => {
                return Err(no_such_edge(id.as_str()));
            },
            Some(edge) => {
                edge.from_side = read_side(&from_side);
                edge.to_side = read_side(&to_side);
            },
        }
        self.touch_edge(id);
        Ok(Response::Done)
    }

    fn apply_delete_edge(&mut self, id: String) -> (r: Result<Response, String>)
        ensures
            (final(self)@, reply_view(r)) == old(self)@.applied(
                RequestView::DeleteEdge { id: id@ },
            ),
            final(self).maps_wf() == old(self).maps_wf(),
    {
        proof {
            reveal(AppView::applied);
        }
        self.canvas.delete_edge(id.as_str());
        let gone: Selected = Selected::Edge(id.clone());
        self.deselect(&gone);
        self.touch_edge(id);
        Ok(Response::Done)
    }

    fn apply_reattach(&mut self, id: String, end: String, node: String) -> (r: Result<
        Response,
        String,
    >)
        ensures
            (final(self)@, reply_view(r)) == old(self)@.applied(
                RequestView::Reattach { id: id@, end: end@, node: node@ },
            ),
            final(self).maps_wf() == old(self).maps_wf(),
    {
        proof {
            reveal(AppView::applied);
        }
        proof {
            reveal_strlit("from");
            reveal_strlit("to");
            assert("from"@.len() != "to"@.len());
        }
        if self.canvas.node(node.as_str()).is_none() {
            return Err(no_such_node(node.as_str()));
        }
        let from: bool = same_str(end.as_str(), "from");
        let to: bool = same_str(end.as_str(), "to");
        match self.canvas.edge(id.as_str()) {
            None => {
                return Err(no_such_edge(id.as_str()));
            },
            Some(edge) => {
                if from {
                    if same_str(edge.to.as_str(), node.as_str()) {
                        return Err("can't connect a box to itself".to_owned());
                    }
                } else if to {
                    if same_str(edge.from.as_str(), node.as_str()) {
                        return Err("can't connect a box to itself".to_owned());
                    }
                } else {
                    let mut msg: String = "end must be \"from\" or \"to\", got ".to_owned();
                    let quoted: String = quote(end.as_str());
                    msg.append(quoted.as_str());
                    return Err(msg);
                }
            },
        }
        match self.canvas.edge_mut(id.as_str()) {
            None => {},
            Some(edge) => {
                if from {
                    edge.from = node;
                } else {
                    edge.to = node;
                }
            },
        }
        self.touch_edge(id);
        Ok(Response::Done)
    }

    fn apply_save(&mut self) -> (r: Result<Response, String>)
        ensures
            (final(self)@, reply_view(r)) == old(self)@.applied(RequestView::Save),
            final(self).maps_wf() == old(self).maps_wf(),
    {
        proof {
            reveal(AppView::applied);
        }
        self.save();
        let path: String = match &self.save_path {
            Some(p) => p.clone(),
            None => {
                let none: String = String::new();
                proof {
                    assert(none@ =~= Seq::empty());
                }
                none
            },
        };
        Ok(Response::Saved { path })
    }

    /// The single place that every change to the board goes through,
    /// whether it came from a mouse drag, a keystroke or a script.
    pub fn dispatch(&mut self, req: Request) -> (r: Result<Response, String>)
        requires
            req@.needs_id() ==> old(self).canvas.next_id < u64::MAX,
        ensures
            (final(self)@, reply_view(r)) == old(self)@.dispatched(req@),
            final(self).maps_wf() == old(self).maps_wf(),
            old(self).wf() ==> final(self).wf(),
    {
        proof {
            lemma_dispatch_keeps(self@, req@);
            if req@.changes() {
                lemma_noted_first(self@, req@);
            }
        }
        if req.mutates() {
            let copy: Canvas = self.canvas.clone();
            let reply: Result<Response, String> = self.apply(req);
            if reply.is_ok() {
                self.note(copy);
            }
            reply
        } else {
            self.apply(req)
        }
    }

    fn apply(&mut self, req: Request) -> (r: Result<Response, String>)
        requires
            req@.needs_id() ==> old(self).canvas.next_id < u64::MAX,
        ensures
            (final(self)@, reply_view(r)) == old(self)@.applied(req@),
            final(self).maps_wf() == old(self).maps_wf(),
    {
        proof {
            reveal(AppView::applied);
        }
        match req {
            Request::Place { x, y, w, h } => self.apply_place(x, y, w, h),
            Request::SetText { id, text } => self.apply_text(id, text),
            Request::SetRect { id, x, y, w, h } => self.apply_rect(id, x, y, w, h),
            Request::SetColor { id, color } => self.apply_color(id, color),
            Request::SetShape { id, shape } => self.apply_shape(id, shape),
            Request::Connect { from, to } => self.apply_connect(from, to),
            Request::Delete { id } => self.apply_delete(id),
            Request::SetLabel { id, label } => self.apply_label(id, label),
            Request::SetEdgeColor { id, color } => self.apply_edge_color(id, color),
            Request::SetEdgeEnds { id, from_end, to_end } => self.apply_ends(id, from_end, to_end),
            Request::SetEdgeSides { id, from_side, to_side } => self.apply_sides(
                id,
                from_side,
                to_side,
            ),
            Request::DeleteEdge { id } => self.apply_delete_edge(id),
            Request::Reattach { id, end, node } => self.apply_reattach(id, end, node),
            Request::Select { id } => {
                self.selected = id;
                Ok(Response::Done)
            },
            Request::State => Ok(Response::State { board: to_file(&self.canvas) }),
            Request::Save => self.apply_save(),
            Request::Undo => Ok(Response::Undone { done: self.undo() }),
            Request::Redo => Ok(Response::Redone { done: self.redo() }),
        }
    }
}

} // verus!

//! The outline editor: a markdown document as a tree that can be dragged
//! about, every change written back to the document's own lines.

use ratatui_dnd::Sortable;
use vstd::prelude::*;

use crate::endings::{
    endings_of, find_endings, lemma_lines_read_back, lemma_text_is_its_lines, moved_endings,
    no_endings, with_endings, write_lines, Endings, EndingsView,
};
use crate::keys::{popped, Key, KeyInput};
use crate::mindmap::{
    apply_move, outline, parse, set_text, Kind, MindTree, NodeId, Target, Tree,
};
use crate::outline::{cut, landing, moved_doc, node_line};
use crate::outline_laws::{
    lemma_drop_target_is_outside, lemma_flat_ids, lemma_move_outside_fits, lemma_outline_wf,
    lemma_reorder_moves_a_block,
};
use crate::pointer::{
    feed_sort, items_fit, new_sort, sort_state, sort_step, DragView, MouseInput, SortAct, SortView,
};
use crate::text::{decimal, decimal_of, is_line, lines, lines_of, string_of, views};

verus! {

/// What the keyboard edits.
#[derive(Debug, Clone, Copy, PartialEq, Eq, Structural)]
pub enum Mode {
    Normal,
    Editing(NodeId),
}

/// Every way the document can change. The drag and edit handlers build one
/// of these and hand it to [`MindApp::dispatch`] just like a script does,
/// so a script and a drag can never disagree about what a move means.
#[derive(Debug)]
#[allow(inconsistent_fields)]
pub enum Request {
    /// Give a node another parent, none for the top level, and another
    /// place: `index` is where among that parent's other children it lands,
    /// counted with the moved node itself left out.
    Move { id: NodeId, parent: Option<NodeId>, index: usize },
    /// Replace a node's own text.
    SetText { id: NodeId, text: String },
    /// Select a node, or clear the selection.
    Select { id: Option<NodeId> },
    /// The whole tree.
    State,
    /// Write the document to its file.
    Save,
}

/// A request, its text as characters.
#[allow(inconsistent_fields)]
pub ghost enum RequestView {
    Move { id: u64, parent: Option<u64>, index: usize },
    SetText { id: u64, text: Seq<char> },
    Select { id: Option<u64> },
    State,
    Save,
}

impl View for Request {
    type V = RequestView;

    open spec fn view(&self) -> RequestView {
        match self {
            Request::Move { id, parent, index } => RequestView::Move {
                id: *id,
                parent: *parent,
                index: *index,
            },
            Request::SetText { id, text } => RequestView::SetText { id: *id, text: text@ },
            Request::Select { id } => RequestView::Select { id: *id },
            Request::State => RequestView::State,
            Request::Save => RequestView::Save,
        }
    }
}

/// What a request is answered with.
#[derive(Debug)]
pub enum Response {
    Done,
    State { roots: Vec<TreeNode> },
    Saved { path: String },
}

/// A node with all that is under it.
#[derive(Debug)]
pub struct TreeNode {
    pub id: NodeId,
    pub kind: String,
    pub text: String,
    pub children: Vec<TreeNode>,
}

/// The name of a node's kind.
pub open spec fn kind_name(kind: Kind) -> Seq<char> {
    match kind {
        Kind::Heading(_) => "heading"@,
        Kind::ListItem(_) => "list_item"@,
    }
}

/// Whether a node with all under it is the one that a tree has under an id.
pub open spec fn shows_node(t: TreeNode, tree: Tree, id: u64) -> bool
    decreases u64::MAX - id,
{
    let node = tree.nodes[id];
    &&& t.id == id
    &&& t.kind@ == kind_name(node.kind)
    &&& t.text@ == node.text
    &&& t.children@.len() == node.children.len()
    &&& forall|i: int|
        0 <= i < node.children.len() ==> #[trigger] node.children[i] > id && shows_node(
            t.children@[i],
            tree,
            node.children[i],
        )
}

/// Whether some nodes with all under them are those that a tree has under
/// some ids.
pub open spec fn shows_nodes(ts: Seq<TreeNode>, tree: Tree, ids: Seq<u64>) -> bool {
    &&& ts.len() == ids.len()
    &&& forall|i: int| 0 <= i < ids.len() ==> shows_node(ts[i], tree, #[trigger] ids[i])
}

/// What a request is answered with: for the whole tree, one that shows it.
pub ghost enum Reply {
    Done,
    State(Tree),
    Saved(Seq<char>),
}

/// Whether an answer is the one wanted.
pub open spec fn replies(r: Result<Response, String>, want: Result<Reply, Seq<char>>) -> bool {
    match (r, want) {
        (Ok(Response::Done), Ok(Reply::Done)) => true,
        (Ok(Response::State { roots }), Ok(Reply::State(tree))) => shows_nodes(
            roots@,
            tree,
            tree.roots,
        ),
        (Ok(Response::Saved { path }), Ok(Reply::Saved(p))) => path@ == p,
        (Err(msg), Err(m)) => msg@ == m,
        _ => false,
    }
}

pub struct MindApp {
    pub lines: Vec<String>,
    /// How the lines end in the document's file.
    pub endings: Endings,
    pub tree: MindTree,
    pub sort: Sortable<(), NodeId>,
    pub selected: Option<NodeId>,
    pub mode: Mode,
    pub editing_text: String,
    pub save_path: String,
    pub status: String,
    pub should_quit: bool,
    /// Whether the document is to be written to its file.
    pub wants_save: bool,
}

/// The outline editor's state, its texts as characters.
#[verifier::ext_equal]
pub ghost struct MindView {
    pub doc: Seq<Seq<char>>,
    pub endings: EndingsView,
    pub sort: SortView,
    pub selected: Option<u64>,
    pub mode: Mode,
    pub editing_text: Seq<char>,
    pub save_path: Seq<char>,
    pub status: Seq<char>,
    pub should_quit: bool,
    pub wants_save: bool,
}

impl View for MindApp {
    type V = MindView;

    open spec fn view(&self) -> MindView {
        MindView {
            doc: views(self.lines@),
            endings: self.endings@,
            sort: sort_state(self.sort),
            selected: self.selected,
            mode: self.mode,
            editing_text: self.editing_text@,
            save_path: self.save_path@,
            status: self.status@,
            should_quit: self.should_quit,
            wants_save: self.wants_save,
        }
    }
}

pub open spec fn no_node(id: u64) -> Seq<char> {
    "no such node: "@ + decimal(id as nat)
}

impl MindView {
    /// The tree of the document.
    pub open spec fn tree(self) -> Tree {
        outline(self.doc)
    }

    /// Whether a node can be moved to a place: the place is still there
    /// once the node's own lines are cut out. Under a parent outside its
    /// own subtree it always is.
    pub open spec fn move_fits(self, id: u64, parent: Option<u64>, index: int) -> bool {
        let t = self.tree();
        t.nodes.contains_key(id) && (parent is Some ==> t.nodes.contains_key(parent->0))
            && t.valid(id, parent) ==> {
            let (start, end) = (t.nodes[id].line, t.nodes[id].end);
            let at = t.insert_line(id, parent, index);
            at > start ==> end - start <= at <= self.doc.len()
        }
    }

    /// Whether a request can be made.
    pub open spec fn fits(self, req: RequestView) -> bool {
        match req {
            RequestView::Move { id, parent, index } => self.move_fits(id, parent, index as int),
            _ => true,
        }
    }

    /// What moving a node comes to.
    pub open spec fn moved(self, id: u64, parent: Option<u64>, index: int) -> (
        MindView,
        Result<Reply, Seq<char>>,
    ) {
        let t = self.tree();
        if !t.nodes.contains_key(id) {
            (self, Err(no_node(id)))
        } else if parent is Some && !t.nodes.contains_key(parent->0) {
            (self, Err(no_node(parent->0)))
        } else if !t.valid(id, parent) {
            (self, Err("can't nest a heading under a list item"@))
        } else {
            (
                MindView {
                    doc: moved_doc(
                        self.doc,
                        t.nodes[id].line,
                        t.nodes[id].end,
                        t.insert_line(id, parent, index),
                        t.nodes[id].kind,
                        t.depth_delta(id, parent),
                    ),
                    endings: moved_endings(
                        self.endings,
                        t.nodes[id].line,
                        t.nodes[id].end,
                        t.insert_line(id, parent, index),
                    ),
                    selected: if self.selected == Some(id) {
                        None
                    } else {
                        self.selected
                    },
                    ..self
                },
                Ok(Reply::Done),
            )
        }
    }

    /// What replacing a node's text comes to.
    pub open spec fn retexted(self, id: u64, text: Seq<char>) -> (
        MindView,
        Result<Reply, Seq<char>>,
    ) {
        let t = self.tree();
        if !t.nodes.contains_key(id) {
            (self, Err(no_node(id)))
        } else {
            let n = t.nodes[id];
            (
                MindView {
                    doc: self.doc.update(n.line, node_line(n.kind, n.indent, text)),
                    ..self
                },
                Ok(Reply::Done),
            )
        }
    }

    /// What a request comes to.
    pub open spec fn dispatched(self, req: RequestView) -> (MindView, Result<Reply, Seq<char>>) {
        match req {
            RequestView::Move { id, parent, index } => self.moved(id, parent, index as int),
            RequestView::SetText { id, text } => self.retexted(id, text),
            RequestView::Select { id } => (
                MindView { selected: id, ..self },
                Ok(Reply::Done),
            ),
            RequestView::State => (self, Ok(Reply::State(self.tree()))),
            RequestView::Save => (
                MindView { wants_save: true, ..self },
                Ok(Reply::Saved(self.save_path)),
            ),
        }
    }

    /// The state after a drop into a gap of the list without the dropped
    /// node.
    pub open spec fn dropped(self, key: u64, slot: int) -> MindView {
        let t = self.tree();
        let (parent, index) = t.resolve(t.flat(Some(key)), slot);
        let (after, reply) = self.moved(key, parent, index);
        match reply {
            Ok(_) => MindView { status: Seq::empty(), mode: Mode::Normal, ..after },
            Err(msg) => MindView { status: msg, ..after },
        }
    }

    /// The state after a mouse event.
    pub open spec fn moused(self, ev: MouseInput) -> MindView {
        let (sort, act) = sort_step(self.sort, ev);
        let s = MindView { sort, ..self };
        match act {
            SortAct::Click(id) => MindView { selected: Some(id), ..s },
            SortAct::Drop { key, slot } => s.dropped(key, slot as int),
            _ => s,
        }
    }

    /// The state after a key. A release does nothing.
    pub open spec fn keyed(self, k: KeyInput) -> MindView {
        if k.release {
            self
        } else {
            match self.mode {
                Mode::Editing(id) => match k.key {
                    Key::Esc => self.committed(id),
                    Key::Enter => self.committed(id),
                    Key::Backspace => MindView {
                        editing_text: popped(self.editing_text),
                        ..self
                    },
                    Key::Char(c) => MindView { editing_text: self.editing_text.push(c), ..self },
                    _ => self,
                },
                Mode::Normal => match k.key {
                    Key::Char(c) => if c == 'q' {
                        MindView { should_quit: true, ..self }
                    } else if c == 's' {
                        MindView { wants_save: true, ..self }
                    } else {
                        self
                    },
                    Key::Enter => match self.selected {
                        Some(id) => if self.tree().nodes.contains_key(id) {
                            MindView {
                                editing_text: self.tree().nodes[id].text,
                                mode: Mode::Editing(id),
                                ..self
                            }
                        } else {
                            self
                        },
                        None => self,
                    },
                    Key::Esc => MindView { selected: None, ..self },
                    _ => self,
                },
            }
        }
    }

    /// The state with the text that was typed written back.
    pub open spec fn committed(self, id: u64) -> MindView {
        let taken = MindView { editing_text: Seq::empty(), ..self };
        MindView {
            mode: Mode::Normal,
            selected: None,
            ..taken.retexted(id, self.editing_text).0
        }
    }
}

/// What was found where a document's file should be.
#[derive(Debug)]
pub enum Found {
    /// No file yet.
    New,
    Text(String),
    /// A file that cannot be read, and why.
    Failed(String),
}

/// What was found, its texts as characters.
pub ghost enum FoundView {
    New,
    Text(Seq<char>),
    Failed(Seq<char>),
}

impl View for Found {
    type V = FoundView;

    open spec fn view(&self) -> FoundView {
        match self {
            Found::New => FoundView::New,
            Found::Text(s) => FoundView::Text(s@),
            Found::Failed(e) => FoundView::Failed(e@),
        }
    }
}

/// The lines of what was found.
pub open spec fn found_doc(found: FoundView) -> Seq<Seq<char>> {
    match found {
        FoundView::Text(s) => lines(s),
        _ => Seq::empty(),
    }
}

/// How the lines of what was found end.
pub open spec fn found_endings(found: FoundView) -> EndingsView {
    match found {
        FoundView::Text(s) => endings_of(s),
        _ => no_endings(),
    }
}

/// What is said about what was found.
pub open spec fn found_status(path: Seq<char>, found: FoundView) -> Seq<char> {
    match found {
        FoundView::New => "new file "@ + path,
        FoundView::Text(_) => "loaded "@ + path,
        FoundView::Failed(e) => "failed to load "@ + path + ": "@ + e,
    }
}

fn missing(id: NodeId) -> (r: String)
    ensures
        r@ == no_node(id),
{
    let digits: Vec<char> = decimal_of(id);
    let n: usize = digits.len();
    let text: String = string_of(&digits, 0, n);
    let mut s: String = "no such node: ".to_owned();
    s.append(text.as_str());
    proof {
        assert(digits@.subrange(0, n as int) =~= digits@);
    }
    s
}

/// A node with all that is under it.
fn tree_node(tree: &MindTree, id: NodeId) -> (r: TreeNode)
    requires
        tree@.wf(),
        tree@.nodes.contains_key(id),
    ensures
        shows_node(r, tree@, id),
    decreases u64::MAX - id,
{
    let node = match tree.node(id) {
        Some(node) => node,
        None => {
            return TreeNode {
                id,
                kind: String::new(),
                text: String::new(),
                children: Vec::new(),
            };
        },
    };
    let ghost kids = tree@.nodes[id].children;
    let mut children: Vec<TreeNode> = Vec::new();
    let mut i: usize = 0;
    while i < node.children.len()
        invariant
            i <= node.children@.len(),
            tree@.wf(),
            tree@.nodes.contains_key(id),
            node@ == tree@.nodes[id],
            kids == tree@.nodes[id].children,
            kids == node.children@,
            children@.len() == i,
            forall|k: int|
                0 <= k < i ==> #[trigger] kids[k] > id && shows_node(
                    children@[k],
                    tree@,
                    kids[k],
                ),
        decreases node.children@.len() - i,
    {
        proof {
            assert(tree@.nodes[id].children.contains(kids[i as int]));
        }
        let ghost before = children@;
        children.push(tree_node(tree, node.children[i]));
        proof {
            assert forall|k: int| 0 <= k < i + 1 implies #[trigger] kids[k] > id && shows_node(
                children@[k],
                tree@,
                kids[k],
            ) by {
                if k < i {
                    assert(children@[k] == before[k]);
                }
            }
        }
        i += 1;
    }
    let kind: String = match node.kind {
        Kind::Heading(_) => "heading".to_owned(),
        Kind::ListItem(_) => "list_item".to_owned(),
    };
    TreeNode { id, kind, text: node.text.clone(), children }
}

/// The outermost nodes with all that is under them.
fn tree_roots(tree: &MindTree) -> (r: Vec<TreeNode>)
    requires
        tree@.wf(),
    ensures
        shows_nodes(r@, tree@, tree@.roots),
{
    let ghost ids = tree@.roots;
    let mut out: Vec<TreeNode> = Vec::new();
    let mut i: usize = 0;
    while i < tree.roots.len()
        invariant
            i <= tree.roots@.len(),
            tree@.wf(),
            ids == tree@.roots,
            ids == tree.roots@,
            out@.len() == i,
            forall|k: int| 0 <= k < i ==> shows_node(out@[k], tree@, #[trigger] ids[k]),
        decreases tree.roots@.len() - i,
    {
        proof {
            assert(tree@.roots.contains(ids[i as int]));
        }
        let ghost before = out@;
        out.push(tree_node(tree, tree.roots[i]));
        proof {
            assert forall|k: int| 0 <= k < i + 1 implies shows_node(
                out@[k],
                tree@,
                #[trigger] ids[k],
            ) by {
                if k < i {
                    assert(out@[k] == before[k]);
                }
            }
        }
        i += 1;
    }
    out
}

impl MindApp {
    /// What holds of the editor at all times: the tree is the document's,
    /// every line has its ending, and what was drawn of it ends on the
    /// screen.
    pub open spec fn wf(&self) -> bool {
        &&& self.tree@ == outline(self@.doc)
        &&& self.endings.crlf@.len() == self.lines@.len()
        &&& self.tree@.wf()
        &&& items_fit(self@.sort.items)
        &&& self@.sort.area matches Some(area) ==> area.fits()
    }

    /// Opens a document, given what was found at its path.
    pub fn new(save_path: String, found: Found) -> (r: MindApp)
        ensures
            r@ == (MindView {
                doc: found_doc(found@),
                endings: found_endings(found@),
                sort: SortView { drag: DragView::Idle, area: None, items: Seq::empty() },
                selected: None,
                mode: Mode::Normal,
                editing_text: Seq::empty(),
                save_path: save_path@,
                status: found_status(save_path@, found@),
                should_quit: false,
                wants_save: false,
            }),
            r.wf(),
    {
        let path: &str = save_path.as_str();
        let (doc, endings, status) = match &found {
            Found::New => {
                let mut s: String = "new file ".to_owned();
                s.append(path);
                (Vec::new(), Endings { crlf: Vec::new(), closed: true }, s)
            },
            Found::Text(text) => {
                let mut s: String = "loaded ".to_owned();
                s.append(path);
                (lines_of(text.as_str()), find_endings(text.as_str()), s)
            },
            Found::Failed(e) => {
                let mut s: String = "failed to load ".to_owned();
                s.append(path);
                s.append(": ");
                s.append(e.as_str());
                (Vec::new(), Endings { crlf: Vec::new(), closed: true }, s)
            },
        };
        let ghost shown = found_doc(found@);
        proof {
            assert(views(doc@) =~= shown);
            assert(endings@ =~= found_endings(found@));
            assert(doc@.len() == views(doc@).len());
        }
        let tree: MindTree = parse(doc.as_slice());
        let editing_text: String = String::new();
        proof {
            assert(editing_text@ =~= Seq::empty());
        }
        MindApp {
            lines: doc,
            endings,
            tree,
            sort: new_sort(),
            selected: None,
            mode: Mode::Normal,
            editing_text,
            save_path,
            status,
            should_quit: false,
            wants_save: false,
        }
    }

    /// Asks for the document to be written to its file.
    pub fn save(&mut self)
        ensures
            final(self)@ == (MindView { wants_save: true, ..old(self)@ }),
            old(self).wf() ==> final(self).wf(),
    {
        self.wants_save = true;
    }

    /// What is written to the document's file: its lines, ended as they were
    /// when it was read.
    pub fn content(&self) -> (r: String)
        ensures
            r@ == with_endings(self@.doc, self@.endings),
    {
        write_lines(&self.lines, &self.endings)
    }

    /// Notes how writing the document went.
    pub fn finish_save(&mut self, error: Option<String>)
        ensures
            final(self)@ == (MindView {
                wants_save: false,
                status: match error {
                    Some(e) => "save failed: "@ + e@,
                    None => "saved "@ + old(self)@.save_path,
                },
                ..old(self)@
            }),
            old(self).wf() ==> final(self).wf(),
    {
        self.wants_save = false;
        match error {
            Some(e) => {
                let mut s: String = "save failed: ".to_owned();
                s.append(e.as_str());
                self.status = s;
            },
            None => {
                let mut s: String = "saved ".to_owned();
                s.append(self.save_path.as_str());
                self.status = s;
            },
        }
    }

    /// Whether a request can be made: a node cannot be moved to where its
    /// own lines are.
    pub fn can_dispatch(&self, req: &Request) -> (r: bool)
        requires
            self.wf(),
        ensures
            r == self@.fits(req@),
    {
        match req {
            Request::Move { id, parent, index } => {
                let (id, parent): (NodeId, Option<NodeId>) = (*id, *parent);
                if self.tree.node(id).is_none() {
                    return true;
                }
                match parent {
                    Some(p) => {
                        if self.tree.node(p).is_none() {
                            return true;
                        }
                    },
                    None => {},
                }
                let target = Target { parent, index: *index };
                let n: usize = self.lines.len();
                proof {
                    lemma_move_outside_fits(self@.doc, id, None, 0);
                }
                match self.tree.plan_move(id, &target) {
                    Some(mv) => mv.can_apply(n),
                    None => true,
                }
            },
            _ => true,
        }
    }

    fn apply_move(&mut self, id: NodeId, parent: Option<NodeId>, index: usize) -> (r: Result<
        Response,
        String,
    >)
        requires
            old(self).wf(),
            old(self)@.move_fits(id, parent, index as int),
        ensures
            final(self).wf(),
            ({
                let (after, reply) = old(self)@.moved(id, parent, index as int);
                final(self)@ == after && replies(r, reply)
            }),
    {
        let ghost before = self@;
        if self.tree.node(id).is_none() {
            return Err(missing(id));
        }
        match parent {
            Some(p) => {
                if self.tree.node(p).is_none() {
                    return Err(missing(p));
                }
            },
            None => {},
        }
        let target = Target { parent, index };
        let n: usize = self.lines.len();
        proof {
            assert(before.doc.len() == n);
            lemma_move_outside_fits(before.doc, id, None, 0);
        }
        match self.tree.plan_move(id, &target) {
            None => Err("can't nest a heading under a list item".to_owned()),
            Some(mv) => {
                self.lines = apply_move(self.lines.as_slice(), &mv);
                self.endings.move_lines(mv.start, mv.end, mv.insert_at);
                self.tree = parse(self.lines.as_slice());
                let same: bool = match self.selected {
                    Some(s) => s == id,
                    None => false,
                };
                if same {
                    self.selected = None;
                }
                Ok(Response::Done)
            },
        }
    }

    fn apply_text(&mut self, id: NodeId, text: String) -> (r: Result<Response, String>)
        requires
            old(self).wf(),
        ensures
            final(self).wf(),
            ({
                let (after, reply) = old(self)@.retexted(id, text@);
                final(self)@ == after && replies(r, reply)
            }),
    {
        let ghost before = self@;
        if self.tree.node(id).is_none() {
            return Err(missing(id));
        }
        let n: usize = self.lines.len();
        proof {
            assert(before.doc.len() == n);
            lemma_move_outside_fits(before.doc, id, None, 0);
        }
        set_text(self.lines.as_mut_slice(), &self.tree, id, text.as_str());
        self.tree = parse(self.lines.as_slice());
        Ok(Response::Done)
    }

    /// The single place that every change to the document goes through,
    /// whether it came from a mouse drag, a keystroke or a script.
    pub fn dispatch(&mut self, req: Request) -> (r: Result<Response, String>)
        requires
            old(self).wf(),
            old(self)@.fits(req@),
        ensures
            final(self).wf(),
            ({
                let (after, reply) = old(self)@.dispatched(req@);
                final(self)@ == after && replies(r, reply)
            }),
    {
        match req {
            Request::Move { id, parent, index } => self.apply_move(id, parent, index),
            Request::SetText { id, text } => self.apply_text(id, text),
            Request::Select { id } => {
                self.selected = id;
                Ok(Response::Done)
            },
            Request::State => Ok(Response::State { roots: tree_roots(&self.tree) }),
            Request::Save => {
                self.save();
                Ok(Response::Saved { path: self.save_path.clone() })
            },
        }
    }

    /// Moves a node to where it was dropped.
    fn take_drop(&mut self, key: NodeId, slot: usize)
        requires
            old(self).wf(),
        ensures
            final(self).wf(),
            final(self)@ == old(self)@.dropped(key, slot as int),
    {
        let ghost before = self@;
        let ghost t = self.tree@;
        let n: usize = self.lines.len();
        let flat: Vec<NodeId> = self.tree.flat(Some(key));
        proof {
            assert(before.doc.len() == n);
            lemma_flat_ids(t, Some(key));
        }
        let target: Target = self.tree.resolve_target(flat.as_slice(), slot);
        proof {
            if t.nodes.contains_key(key) {
                lemma_drop_target_is_outside(before.doc, key, slot as int);
                lemma_move_outside_fits(
                    before.doc,
                    key,
                    target.parent,
                    target.index as int,
                );
            }
        }
        match self.apply_move(key, target.parent, target.index) {
            Ok(_) => {
                let none: String = String::new();
                proof {
                    assert(none@ =~= Seq::empty());
                }
                self.status = none;
                self.mode = Mode::Normal;
            },
            Err(msg) => {
                self.status = msg;
            },
        }
    }

    pub fn on_mouse(&mut self, ev: MouseInput)
        requires
            old(self).wf(),
        ensures
            final(self).wf(),
            final(self)@ == old(self)@.moused(ev),
    {
        match feed_sort(&mut self.sort, ev) {
            SortAct::Click(id) => {
                self.selected = Some(id);
            },
            SortAct::Drop { key, slot } => self.take_drop(key, slot),
            _ => {},
        }
    }

    pub fn on_key(&mut self, k: KeyInput)
        requires
            old(self).wf(),
        ensures
            final(self).wf(),
            final(self)@ == old(self)@.keyed(k),
    {
        if k.release {
            return;
        }
        match self.mode {
            Mode::Editing(id) => match k.key {
                Key::Esc => self.commit(id),
                Key::Enter => self.commit(id),
                Key::Backspace => {
                    let _last: Option<char> = self.editing_text.pop();
                },
                Key::Char(c) => self.editing_text.push(c),
                _ => {},
            },
            Mode::Normal => match k.key {
                Key::Char(c) => {
                    if c == 'q' {
                        self.should_quit = true;
                    } else if c == 's' {
                        self.save();
                    }
                },
                Key::Enter => {
                    match self.selected {
                        Some(id) => match self.tree.node(id) {
                            Some(node) => {
                                self.editing_text = node.text.clone();
                                self.mode = Mode::Editing(id);
                            },
                            None => {},
                        },
                        None => {},
                    }
                },
                Key::Esc => {
                    self.selected = None;
                },
                _ => {},
            },
        }
    }

    /// Writes back the text that was typed.
    fn commit(&mut self, id: NodeId)
        requires
            old(self).wf(),
        ensures
            final(self).wf(),
            final(self)@ == old(self)@.committed(id),
    {
        let text: String = self.editing_text.clone();
        self.editing_text = String::new();
        proof {
            assert(self.editing_text@ =~= Seq::empty());
        }
        let _reply: Result<Response, String> = self.apply_text(id, text);
        self.mode = Mode::Normal;
        self.selected = None;
    }
}

/// An answer with the name that its request went by.
#[derive(Debug)]
pub struct Envelope {
    pub id: String,
    pub outcome: Result<Response, String>,
}

/// Applies one request that was read, or answers with what is wrong with
/// it. `kind` is the name that the request went by, so that an answer can
/// be matched back up.
pub fn run_one(app: &mut MindApp, kind: String, req: Result<Request, String>) -> (r: Envelope)
    requires
        old(app).wf(),
        req matches Ok(q) ==> old(app)@.fits(q@),
    ensures
        final(app).wf(),
        r.id@ == kind@,
        match req {
            Ok(q) => {
                let (after, reply) = old(app)@.dispatched(q@);
                final(app)@ == after && replies(r.outcome, reply)
            },
            Err(e) => final(app)@ == old(app)@ && replies(r.outcome, Err(e@)),
        },
{
    match req {
        Ok(q) => Envelope { id: kind, outcome: app.dispatch(q) },
        Err(e) => Envelope { id: kind, outcome: Err(e) },
    }
}

/// An untouched document is written back byte for byte, whatever it holds.
pub proof fn lemma_document_writes_back(s: Seq<char>)
    ensures
        with_endings(
            found_doc(FoundView::Text(s)),
            found_endings(FoundView::Text(s)),
        ) == s,
{
    lemma_text_is_its_lines(s);
}

/// A document that is written reads back as it was, where its last line is
/// not left open with nothing on it.
pub proof fn lemma_document_reads_back(doc: Seq<Seq<char>>, e: EndingsView)
    requires
        forall|i: int| 0 <= i < doc.len() ==> is_line(#[trigger] doc[i]),
        e.crlf.len() == doc.len(),
        !e.closed ==> doc.len() > 0 && doc.last().len() > 0,
    ensures
        found_doc(FoundView::Text(with_endings(doc, e))) == doc,
        found_endings(FoundView::Text(with_endings(doc, e))).closed == e.closed,
{
    lemma_lines_read_back(doc, e);
}

/// A move under the parent that a node has already is nothing but a block of
/// lines changing position: every line is still there as it was, with its
/// own ending, and none is new.
pub proof fn lemma_reorder_only_moves_lines(a: MindView, id: u64, index: int)
    requires
        a.doc.len() <= u64::MAX,
        a.tree().nodes.contains_key(id),
        index >= 0,
    ensures
        ({
            let t = a.tree();
            let (start, end) = (t.nodes[id].line, t.nodes[id].end);
            let (b, reply) = a.moved(id, t.nodes[id].parent, index);
            let at = landing(start, end, t.insert_line(id, t.nodes[id].parent, index));
            &&& t.depth_delta(id, t.nodes[id].parent) == 0
            &&& reply is Ok ==> {
                &&& b.doc.to_multiset() == a.doc.to_multiset()
                &&& b.doc.subrange(at, at + (end - start)) == a.doc.subrange(start, end)
                &&& cut(b.doc, at, at + (end - start)) == cut(a.doc, start, end)
            }
        }),
{
    let t = a.tree();
    let node = t.nodes[id];
    lemma_outline_wf(a.doc);
    lemma_move_outside_fits(a.doc, id, node.parent, index);
    let to = t.insert_line(id, node.parent, index);
    lemma_reorder_moves_a_block(a.doc, node.line, node.end, to, node.kind);
}

/// Asking for the tree, for a selection or for a save leaves the document
/// as it was.
pub proof fn lemma_queries_leave_the_document(a: MindView, req: RequestView)
    requires
        !(req is Move || req is SetText),
    ensures
        a.dispatched(req).0.doc == a.doc,
        a.dispatched(req).1 is Ok,
{
}

/// Nothing is written to the document's file until a save says so: no other
/// request asks for it.
pub proof fn lemma_only_save_asks_for_writing(a: MindView, req: RequestView)
    requires
        !(req is Save),
    ensures
        a.dispatched(req).0.wants_save == a.wants_save,
{
}

/// A refused request leaves everything as it was.
pub proof fn lemma_refused_request_changes_nothing(a: MindView, req: RequestView)
    requires
        a.dispatched(req).1 is Err,
    ensures
        a.dispatched(req).0 == a,
{
}

} // verus!

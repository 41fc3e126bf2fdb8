use ratslate::app::{edge_end_to_string, parse_edge_end, App, Mode, Request, Response, Sync};
use ratslate::canvas_io::FileNode;
use ratslate::model::{Color, EdgeEnd, NodeKind, Shape, Side, WorldRect};
use ratslate::sync::Loaded;
use ratslate::target::Selected;

fn app() -> App {
    App::new(None, Loaded::New, None)
}

fn s(t: &str) -> String {
    t.to_string()
}

fn place(app: &mut App, x: i32, y: i32) -> String {
    match app.dispatch(Request::Place { x, y, w: None, h: None }) {
        Ok(Response::Placed { id }) => id,
        _ => panic!("placed"),
    }
}

fn message(r: Result<Response, String>) -> String {
    match r {
        Err(m) => m,
        Ok(_) => panic!("refused"),
    }
}

#[test]
fn a_new_editor_is_empty() {
    let a = app();
    assert!(a.canvas.nodes.is_empty());
    assert_eq!(a.status, "");
    let b = App::new(Some(s("x.canvas")), Loaded::New, None);
    assert_eq!(b.status, "new file x.canvas");
    let c = App::new(Some(s("x.canvas")), Loaded::Failed(s("bad json")), None);
    assert_eq!(c.status, "failed to load x.canvas: bad json");
}

#[test]
fn requests_change_the_board() {
    let mut a = app();
    let id = place(&mut a, -2, 7);
    assert_eq!(a.canvas.node(&id).unwrap().rect, WorldRect::new(-2, 7, 16, 3));
    assert!(a.dispatch(Request::SetText { id: id.clone(), text: s("hi") }).is_ok());
    assert!(a.dispatch(Request::SetRect { id: id.clone(), x: 1, y: 2, w: 0, h: 9 }).is_ok());
    assert!(a.dispatch(Request::SetColor { id: id.clone(), color: Some(s("#ff8800")) }).is_ok());
    assert!(a.dispatch(Request::SetShape { id: id.clone(), shape: s("rounded") }).is_ok());
    let n = a.canvas.node(&id).unwrap();
    assert!(matches!(&n.kind, NodeKind::Text(t) if t == "hi"));
    assert_eq!(n.rect, WorldRect::new(1, 2, 1, 9));
    assert!(matches!(&n.color, Some(Color::Hex(h)) if h == "#ff8800"));
    assert_eq!(n.shape, Shape::Rounded);
}

#[test]
fn connectors() {
    let mut a = app();
    let x = place(&mut a, 0, 0);
    let y = place(&mut a, 40, 0);
    let z = place(&mut a, 80, 0);
    assert!(a.dispatch(Request::Connect { from: x.clone(), to: y.clone() }).is_ok());
    let e = a.canvas.edges[0].id.clone();
    assert!(a.dispatch(Request::SetLabel { id: e.clone(), label: Some(s("calls")) }).is_ok());
    assert_eq!(a.canvas.edges[0].label.as_deref(), Some("calls"));
    assert!(a.dispatch(Request::SetLabel { id: e.clone(), label: Some(s("")) }).is_ok());
    assert_eq!(a.canvas.edges[0].label, None);
    assert!(a
        .dispatch(Request::SetEdgeEnds { id: e.clone(), from_end: s("arrow"), to_end: s("none") })
        .is_ok());
    assert_eq!(a.canvas.edges[0].from_end, EdgeEnd::Arrow);
    assert_eq!(a.canvas.edges[0].to_end, EdgeEnd::Plain);
    assert!(a
        .dispatch(Request::SetEdgeSides { id: e.clone(), from_side: Some(s("top")), to_side: None })
        .is_ok());
    assert_eq!(a.canvas.edges[0].from_side, Some(Side::Top));
    assert!(a.dispatch(Request::SetEdgeColor { id: e.clone(), color: Some(s("2")) }).is_ok());
    assert!(matches!(a.canvas.edges[0].color, Some(Color::Preset(2))));
    assert!(a.dispatch(Request::Reattach { id: e.clone(), end: s("to"), node: z.clone() }).is_ok());
    assert_eq!(a.canvas.edges[0].to, z);
    assert!(a.dispatch(Request::DeleteEdge { id: e }).is_ok());
    assert!(a.canvas.edges.is_empty());
    assert_eq!(a.canvas.nodes.len(), 3);
}

#[test]
fn refused_requests_say_why() {
    let mut a = app();
    let x = place(&mut a, 0, 0);
    let y = place(&mut a, 40, 0);
    assert!(a.dispatch(Request::Connect { from: x.clone(), to: y.clone() }).is_ok());
    let e = a.canvas.edges[0].id.clone();
    let missing = message(a.dispatch(Request::SetText { id: s("zz"), text: s("") }));
    assert_eq!(missing, "no such node: zz");
    let missing = message(a.dispatch(Request::Connect { from: x.clone(), to: s("zz") }));
    assert_eq!(missing, "no such node: zz");
    let missing = message(a.dispatch(Request::SetLabel { id: s("zz"), label: None }));
    assert_eq!(missing, "no such connector: zz");
    let itself = message(a.dispatch(Request::Reattach { id: e.clone(), end: s("to"), node: x }));
    assert_eq!(itself, "can't connect a box to itself");
    let end = message(a.dispatch(Request::Reattach { id: e, end: s("mid\"dle"), node: y }));
    assert_eq!(end, "end must be \"from\" or \"to\", got \"mid\\\"dle\"");
    assert_eq!(a.canvas.nodes.len(), 2);
}

#[test]
fn deleting_clears_the_selection_and_the_connectors() {
    let mut a = app();
    let x = place(&mut a, 0, 0);
    let y = place(&mut a, 40, 0);
    assert!(a.dispatch(Request::Connect { from: x.clone(), to: y }).is_ok());
    a.selected = Some(Selected::Node(x.clone()));
    assert!(a.dispatch(Request::Delete { id: x }).is_ok());
    assert!(a.selected.is_none());
    assert!(a.canvas.edges.is_empty());
    assert_eq!(a.canvas.nodes.len(), 1);
}

#[test]
fn undo_and_redo_step_through_the_boards() {
    let mut a = app();
    let x = place(&mut a, 0, 0);
    assert!(a.dispatch(Request::SetText { id: x.clone(), text: s("one") }).is_ok());
    assert!(a.dispatch(Request::SetText { id: x.clone(), text: s("two") }).is_ok());
    assert!(matches!(a.dispatch(Request::Undo), Ok(Response::Undone { done: true })));
    assert!(matches!(&a.canvas.nodes[0].kind, NodeKind::Text(t) if t == "one"));
    assert!(matches!(a.dispatch(Request::Redo), Ok(Response::Redone { done: true })));
    assert!(matches!(&a.canvas.nodes[0].kind, NodeKind::Text(t) if t == "two"));
    assert!(!a.redo());
    assert_eq!(a.status, "nothing to redo");
    assert!(a.undo() && a.undo() && a.undo());
    assert!(a.canvas.nodes.is_empty());
    assert!(!a.undo());
    assert_eq!(a.status, "nothing to undo");
    // A new change leaves nothing to redo.
    place(&mut a, 0, 0);
    assert!(!a.redo());
}

#[test]
fn a_refused_request_is_no_step() {
    let mut a = app();
    place(&mut a, 2, 2);
    assert!(a.dispatch(Request::SetText { id: s("nope"), text: s("a") }).is_err());
    assert!(matches!(a.dispatch(Request::Undo), Ok(Response::Undone { done: true })));
    assert!(a.canvas.nodes.is_empty());
    // Nor does it take away what can be redone.
    assert!(a.dispatch(Request::Delete { id: s("n1") }).is_ok() && a.undo() && a.redo());
    assert!(a.undo());
    assert!(a.dispatch(Request::SetShape { id: s("nope"), shape: s("rounded") }).is_err());
    assert!(a.redo());
}

#[test]
fn history_is_limited() {
    let mut a = app();
    for i in 0..130 {
        place(&mut a, i, 0);
    }
    let mut steps = 0;
    while a.undo() {
        steps += 1;
    }
    assert_eq!(steps, 100);
    assert_eq!(a.canvas.nodes.len(), 30);
}

#[test]
fn state_and_save() {
    let mut a = App::new(Some(s("b.canvas")), Loaded::New, None);
    place(&mut a, 3, 4);
    match a.dispatch(Request::State) {
        Ok(Response::State { board }) => {
            assert!(matches!(&board.nodes[0], FileNode::Text { x: 3, y: 4, .. }));
        }
        _ => panic!("the board"),
    }
    assert!(!a.wants_save);
    assert!(matches!(a.dispatch(Request::Save), Ok(Response::Saved { path }) if path == "b.canvas"));
    assert!(a.wants_save);
    a.finish_save(None);
    assert_eq!(a.status, "saved b.canvas");
    a.save();
    a.finish_save(Some(s("disk full")));
    assert_eq!(a.status, "save failed: disk full");
    let mut b = app();
    assert!(matches!(b.dispatch(Request::Save), Ok(Response::Saved { path }) if path.is_empty()));
    assert!(!b.wants_save);
    assert_eq!(b.status, "no file given on the command line — nothing to save to");
}

#[test]
fn what_changed_is_noted_to_be_mirrored() {
    let mut a = app();
    let x = place(&mut a, 0, 0);
    let y = place(&mut a, 40, 0);
    assert!(a.dispatch(Request::Connect { from: x.clone(), to: y }).is_ok());
    let e = a.canvas.edges[0].id.clone();
    a.pending.clear();
    assert!(a.dispatch(Request::Delete { id: x.clone() }).is_ok());
    assert!(matches!(&a.pending[0], Sync::Node(id) if *id == x));
    assert!(matches!(&a.pending[1], Sync::Edge(id) if *id == e));
    assert!(a.undo());
    assert!(matches!(a.pending[2], Sync::All));
    assert!(matches!(a.mode, Mode::Normal));
}

#[test]
fn ends_have_names() {
    assert_eq!(parse_edge_end("arrow"), EdgeEnd::Arrow);
    assert_eq!(parse_edge_end("none"), EdgeEnd::Plain);
    assert_eq!(edge_end_to_string(EdgeEnd::Arrow), "arrow");
    assert_eq!(edge_end_to_string(EdgeEnd::Plain), "none");
}

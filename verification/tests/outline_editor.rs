use ratslate::geometry::Rect;
use ratslate::keys::{Key, KeyInput};
use ratslate::mind_app::{run_one, Found, MindApp, Mode, Request, Response};
use ratslate::paint::{Ink, Paint};
use ratslate::pointer::{MouseInput, MouseKind};

fn s(t: &str) -> String {
    t.to_string()
}

fn open(text: &str) -> MindApp {
    MindApp::new(s("p.md"), Found::Text(s(text)))
}

fn key(k: Key) -> KeyInput {
    KeyInput { key: k, ctrl: false, alt: false, release: false }
}

fn mouse(kind: MouseKind, column: u16, row: u16) -> MouseInput {
    MouseInput { kind, column, row, shift: false }
}

const AREA: Rect = Rect { x: 0, y: 0, width: 40, height: 10 };
const STATUS: Rect = Rect { x: 0, y: 10, width: 40, height: 1 };

#[test]
fn a_document_is_written_back_byte_for_byte() {
    let text = "# A\n\nsome prose\n- x\n\n\n- y\n";
    let app = open(text);
    assert_eq!(app.content(), text);
    assert_eq!(app.status, "loaded p.md");
    assert_eq!(open("").content(), "");
    for text in ["a", "\n", "# a\r\n- b\r\n", "# a\r\n- b", "x\ny\r\n\r\nz\r", "\r", "a\n\n"] {
        assert_eq!(open(text).content(), text);
    }
    // A line that moves takes its ending with it; the last stays open.
    let mut app = open("- a\r\n- b\n- c");
    assert!(app.dispatch(Request::Move { id: 1, parent: None, index: 1 }).is_ok());
    assert_eq!(app.content(), "- b\n- a\r\n- c");
    assert!(app.dispatch(Request::Move { id: 3, parent: None, index: 0 }).is_ok());
    assert_eq!(app.content(), "- c\n- b\n- a");
    assert_eq!(MindApp::new(s("q.md"), Found::New).status, "new file q.md");
    assert_eq!(
        MindApp::new(s("q.md"), Found::Failed(s("denied"))).status,
        "failed to load q.md: denied"
    );
}

#[test]
fn moves_are_made_or_refused() {
    let mut app = open("# A\n- x\n  - y\n## B\n- z\n");
    app.selected = Some(2);
    let req = Request::Move { id: 2, parent: Some(4), index: 0 };
    assert!(app.can_dispatch(&req));
    assert!(app.dispatch(req).is_ok());
    assert_eq!(app.content(), "# A\n## B\n- x\n  - y\n- z\n");
    assert_eq!(app.selected, None);
    let refused = |app: &mut MindApp, req: Request| match app.dispatch(req) {
        Err(m) => m,
        Ok(_) => panic!("refused"),
    };
    assert_eq!(
        refused(&mut app, Request::Move { id: 9, parent: None, index: 0 }),
        "no such node: 9"
    );
    assert_eq!(
        refused(&mut app, Request::Move { id: 1, parent: Some(77), index: 0 }),
        "no such node: 77"
    );
    assert_eq!(
        refused(&mut app, Request::Move { id: 2, parent: Some(3), index: 0 }),
        "can't nest a heading under a list item"
    );
    assert_eq!(refused(&mut app, Request::SetText { id: 12, text: s("t") }), "no such node: 12");
    assert_eq!(app.content(), "# A\n## B\n- x\n  - y\n- z\n");
}

#[test]
fn a_node_cannot_go_into_its_own_lines() {
    let app = open("# A\n## B\n### C\n");
    assert!(!app.can_dispatch(&Request::Move { id: 1, parent: Some(2), index: 0 }));
    assert!(app.can_dispatch(&Request::Move { id: 3, parent: None, index: 0 }));
    assert!(app.can_dispatch(&Request::State));
}

#[test]
fn the_tree_is_told_in_full() {
    let mut app = open("# A\n- x\n");
    match app.dispatch(Request::State) {
        Ok(Response::State { roots }) => {
            assert_eq!(roots.len(), 1);
            assert_eq!((roots[0].id, roots[0].kind.as_str(), roots[0].text.as_str()), (1, "heading", "A"));
            let kid = &roots[0].children[0];
            assert_eq!((kid.id, kid.kind.as_str(), kid.text.as_str()), (2, "list_item", "x"));
            assert!(kid.children.is_empty());
        }
        _ => panic!("the tree"),
    }
    assert!(!app.wants_save);
    let r = run_one(&mut app, s("save"), Ok(Request::Save));
    assert_eq!(r.id, "save");
    assert!(matches!(r.outcome, Ok(Response::Saved { path }) if path == "p.md"));
    assert!(app.wants_save);
    app.finish_save(None);
    assert_eq!((app.wants_save, app.status.as_str()), (false, "saved p.md"));
    app.finish_save(Some(s("no room")));
    assert_eq!(app.status, "save failed: no room");
    let r = run_one(&mut app, s("?"), Err(s("missing field")));
    assert!(matches!(r.outcome, Err(e) if e == "missing field"));
}

#[test]
fn keys_edit_a_node() {
    let mut app = open("# A\n- x\n");
    app.on_key(key(Key::Enter));
    assert_eq!(app.mode, Mode::Normal);
    assert!(app.dispatch(Request::Select { id: Some(2) }).is_ok());
    app.on_key(key(Key::Enter));
    assert_eq!(app.mode, Mode::Editing(2));
    app.on_key(key(Key::Char('y')));
    app.on_key(KeyInput { release: true, ..key(Key::Char('!')) });
    app.on_key(key(Key::Backspace));
    app.on_key(key(Key::Char('z')));
    assert_eq!(app.editing_text, "xz");
    app.on_key(key(Key::Esc));
    assert_eq!(app.content(), "# A\n- xz\n");
    assert_eq!((app.mode, app.selected), (Mode::Normal, None));
    app.on_key(key(Key::Char('s')));
    assert!(app.wants_save);
    app.on_key(key(Key::Char('q')));
    assert!(app.should_quit);
}

#[test]
fn rows_show_the_outline() {
    let mut app = open("# A\n- x\n  - y\n");
    app.selected = Some(2);
    let paints = app.render(AREA, STATUS);
    assert_eq!(paints.len(), 4);
    match &paints[0] {
        Paint::Text { area, text, look } => {
            assert_eq!((*area, text.as_str()), (Rect::new(0, 0, 40, 1), "# A"));
            assert!(look.bold && look.fg.is_none());
        }
        _ => panic!("a row"),
    }
    match &paints[1] {
        Paint::Text { area, text, look } => {
            assert_eq!((*area, text.as_str()), (Rect::new(2, 1, 38, 1), "- x"));
            assert!(!look.bold && look.fg == Some(Ink::Cyan));
        }
        _ => panic!("a row"),
    }
    assert!(matches!(&paints[2], Paint::Text { area, text, .. }
        if *area == Rect::new(4, 2, 36, 1) && text == "- y"));
    assert!(matches!(&paints[3], Paint::Text { area, text, .. }
        if *area == STATUS && text.starts_with("NORMAL — loaded p.md — click select")));
}

#[test]
fn a_click_selects_and_a_drag_reorders() {
    let mut app = open("- a\n- b\n- c\n");
    app.render(AREA, STATUS);
    app.on_mouse(mouse(MouseKind::Down, 1, 1));
    app.on_mouse(mouse(MouseKind::Up, 1, 1));
    assert_eq!(app.selected, Some(2));

    app.on_mouse(mouse(MouseKind::Down, 1, 0));
    app.on_mouse(mouse(MouseKind::Drag, 1, 5));
    // The list that a gap is found in is the one that was drawn last.
    assert_eq!(app.render(AREA, STATUS).len(), 5);
    let paints = app.render(AREA, STATUS);
    // Two rows, the gap, the dragged row over a blank, and the status line.
    assert_eq!(paints.len(), 6);
    assert!(matches!(&paints[2], Paint::Text { area, text, .. }
        if *area == Rect::new(0, 2, 40, 1) && *text == "·".repeat(40)));
    assert!(matches!(&paints[3], Paint::Blank { .. }));
    assert!(matches!(&paints[4], Paint::Text { text, .. } if text == "- a"));
    app.on_mouse(mouse(MouseKind::Up, 1, 5));
    assert_eq!(app.content(), "- b\n- c\n- a\n");
    assert_eq!(app.status, "");
}

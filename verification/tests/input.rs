use ratslate::app::{App, Mode, Request, Response};
use ratslate::editing::wrapped_height;
use ratslate::geometry::Rect;
use ratslate::keys::{Key, KeyInput};
use ratslate::model::{Color, EdgeEnd, NodeKind, Shape, WorldRect};
use ratslate::pointer::{MouseInput, MouseKind};
use ratslate::sync::Loaded;
use ratslate::table::Fraction;
use ratslate::target::{HitTarget, Selected};

const AREA: Rect = Rect { x: 0, y: 0, width: 80, height: 23 };
const STATUS: Rect = Rect { x: 0, y: 23, width: 80, height: 1 };
const SCREEN: Rect = Rect { x: 0, y: 0, width: 80, height: 24 };
const SECOND: u64 = 1_000_000_000;

fn land(part: Fraction, span: u16) -> u16 {
    ((part.num as f32 / part.den as f32) * span as f32).round() as u16
}

fn s(t: &str) -> String {
    t.to_string()
}

struct Desk {
    app: App,
    now: u64,
}

impl Desk {
    fn new() -> Desk {
        Desk { app: App::new(None, Loaded::New, None), now: 0 }
    }

    fn draw(&mut self) {
        self.app.render(AREA, STATUS, SCREEN, &land);
    }

    fn mouse(&mut self, kind: MouseKind, column: u16, row: u16, shift: bool) {
        let ev = MouseInput { kind, column, row, shift };
        assert!(self.app.can_take_mouse(&ev, AREA));
        self.app.on_mouse(ev, AREA, self.now);
        self.draw();
    }

    fn click(&mut self, x: u16, y: u16) {
        self.mouse(MouseKind::Down, x, y, false);
        self.mouse(MouseKind::Up, x, y, false);
        self.now += SECOND;
    }

    fn double_click(&mut self, x: u16, y: u16) {
        self.mouse(MouseKind::Down, x, y, false);
        self.mouse(MouseKind::Up, x, y, false);
        self.now += SECOND / 10;
        self.click(x, y);
    }

    fn drag(&mut self, from: (u16, u16), to: (u16, u16), shift: bool) {
        self.mouse(MouseKind::Down, from.0, from.1, shift);
        self.mouse(MouseKind::Drag, to.0, to.1, shift);
        self.mouse(MouseKind::Up, to.0, to.1, shift);
        self.now += SECOND;
    }

    fn press(&mut self, key: Key) {
        self.press_with(key, false, false);
    }

    fn press_with(&mut self, key: Key, ctrl: bool, alt: bool) {
        let k = KeyInput { key, ctrl, alt, release: false };
        assert!(self.app.can_take_key(&k));
        self.app.on_key(k);
        self.draw();
    }

    fn write(&mut self, text: &str) {
        for c in text.chars() {
            self.press(Key::Char(c));
        }
    }

    fn place(&mut self, x: i32, y: i32, text: &str) -> String {
        let id = match self.app.dispatch(Request::Place { x, y, w: None, h: None }) {
            Ok(Response::Placed { id }) => id,
            _ => panic!("placed"),
        };
        assert!(self.app.dispatch(Request::SetText { id: id.clone(), text: s(text) }).is_ok());
        self.draw();
        id
    }

    fn text(&self, id: &str) -> String {
        match &self.app.canvas.node(id).unwrap().kind {
            NodeKind::Text(t) => t.clone(),
            _ => panic!("text"),
        }
    }

    fn rect(&self, id: &str) -> WorldRect {
        self.app.canvas.node(id).unwrap().rect
    }
}

#[test]
fn a_drag_on_empty_canvas_places_a_box_to_type_into() {
    let mut d = Desk::new();
    d.app.camera = (100, -50);
    d.draw();
    d.mouse(MouseKind::Down, 20, 9, false);
    d.mouse(MouseKind::Drag, 10, 5, false);
    assert_eq!(d.app.drawing_preview(), Some(Rect::new(10, 5, 11, 5)));
    d.mouse(MouseKind::Up, 10, 5, false);
    assert_eq!(d.rect("n1"), WorldRect::new(110, -45, 11, 5));
    assert!(matches!(&d.app.mode, Mode::Editing(Selected::Node(id)) if id == "n1"));
    d.write("hi");
    d.press(Key::Esc);
    assert_eq!(d.text("n1"), "hi");
    assert!(matches!(d.app.mode, Mode::Normal));
    // A small drag still makes a box that can be seen.
    d.drag((40, 9), (41, 9), false);
    assert_eq!(d.rect("n2"), WorldRect::new(140, -41, 5, 3));
}

#[test]
fn a_click_selects_and_a_second_one_opens() {
    let mut d = Desk::new();
    let id = d.place(10, 5, "note");
    d.click(12, 6);
    assert!(matches!(&d.app.selected, Some(Selected::Node(n)) if *n == id));
    assert!(matches!(d.app.mode, Mode::Normal));
    // Too late for a double click.
    d.click(12, 6);
    assert!(matches!(d.app.mode, Mode::Normal));
    d.double_click(12, 6);
    assert!(matches!(d.app.mode, Mode::Editing(_)));
    assert_eq!(d.app.editing_text, "note");
    d.write("!");
    // A click elsewhere writes the text back, and clears the selection.
    d.click(50, 15);
    assert_eq!(d.text(&id), "note!");
    assert!(d.app.selected.is_none());
}

#[test]
fn a_box_is_dragged_by_where_it_was_grabbed_and_kept_on_the_canvas() {
    let mut d = Desk::new();
    let id = d.place(10, 5, "");
    d.drag((12, 6), (30, 12), false);
    assert_eq!(d.rect(&id), WorldRect::new(28, 11, 16, 3));
    d.drag((30, 12), (79, 22), false);
    assert_eq!(d.rect(&id), WorldRect::new(64, 20, 16, 3));
    assert!(d.app.undo());
    assert_eq!(d.rect(&id), WorldRect::new(28, 11, 16, 3));
}

#[test]
fn a_corner_resizes() {
    let mut d = Desk::new();
    let id = d.place(10, 5, "");
    d.mouse(MouseKind::Down, 25, 7, false);
    d.mouse(MouseKind::Drag, 40, 14, false);
    let (shown, r) = d.app.resize_preview(AREA).unwrap();
    assert_eq!((shown.as_str(), r), (id.as_str(), WorldRect::new(10, 5, 30, 9)));
    d.mouse(MouseKind::Up, 40, 14, false);
    assert_eq!(d.rect(&id), WorldRect::new(10, 5, 30, 9));
    // Never smaller than a box can be made by hand.
    d.drag((10, 5), (70, 20), false);
    assert_eq!(d.rect(&id), WorldRect::new(35, 11, 5, 3));
}

#[test]
fn shift_draws_a_connector_to_the_nearest_box() {
    let mut d = Desk::new();
    let a = d.place(5, 5, "");
    let b = d.place(50, 5, "");
    d.drag((8, 6), (45, 6), true);
    assert_eq!(d.app.canvas.edges.len(), 1);
    assert_eq!(d.app.canvas.edges[0].from, a);
    assert_eq!(d.app.canvas.edges[0].to, b);
    assert_eq!(d.app.status, "");
    d.drag((8, 6), (9, 5), true);
    assert_eq!(d.app.status, "can't connect a box to itself");
    assert_eq!(d.app.canvas.edges.len(), 1);
}

#[test]
fn an_end_is_pointed_elsewhere() {
    let mut d = Desk::new();
    let a = d.place(5, 5, "");
    let b = d.place(50, 5, "");
    let c = d.place(50, 15, "");
    assert!(d.app.dispatch(Request::Connect { from: a.clone(), to: b.clone() }).is_ok());
    d.draw();
    // The handle beside the second box's border.
    let (hit, _) = d.app.hits.at(49, 6).unwrap();
    assert!(matches!(hit, HitTarget::Reattach(..)));
    d.drag((49, 6), (55, 16), false);
    assert_eq!(d.app.canvas.edges[0].to, c);
    // Onto the box at the other end: refused.
    let (x, y) = (0..80)
        .flat_map(|x| (0..23).map(move |y| (x, y)))
        .find(|&(x, y)| matches!(d.app.hits.at(x, y), Some((HitTarget::Reattach(_, e), _))
            if e == ratslate::target::Endpoint::To))
        .unwrap();
    d.drag((x, y), (8, 6), false);
    assert_eq!(d.app.status, "can't connect a box to itself");
    assert_eq!(d.app.canvas.edges[0].to, c);
}

#[test]
fn a_click_on_a_line_selects_the_connector_and_a_label_is_typed() {
    let mut d = Desk::new();
    let a = d.place(5, 5, "");
    let b = d.place(50, 5, "");
    assert!(d.app.dispatch(Request::Connect { from: a, to: b }).is_ok());
    d.draw();
    d.click(35, 6);
    assert!(matches!(&d.app.selected, Some(Selected::Edge(id)) if id == "n3"));
    d.press(Key::Enter);
    d.write("calls");
    d.press(Key::Enter);
    assert_eq!(d.app.canvas.edges[0].label.as_deref(), Some("calls"));
    // The color cycles, and so do the ends.
    d.press(Key::Char('c'));
    assert!(matches!(d.app.canvas.edges[0].color, Some(Color::Preset(1))));
    let mut ends = Vec::new();
    for _ in 0..4 {
        d.press(Key::Char('x'));
        let e = &d.app.canvas.edges[0];
        ends.push((e.from_end == EdgeEnd::Arrow, e.to_end == EdgeEnd::Arrow));
    }
    assert_eq!(ends, vec![(true, true), (false, false), (true, false), (false, true)]);
    d.press(Key::Delete);
    assert!(d.app.canvas.edges.is_empty());
}

#[test]
fn the_color_picker() {
    let mut d = Desk::new();
    let id = d.place(10, 5, "");
    d.click(12, 6);
    d.click(26, 5);
    assert!(d.app.color_picker.is_some());
    // The third preset: hovered, it previews; clicked, it is applied.
    d.mouse(MouseKind::Moved, 32, 6, false);
    assert!(matches!(&d.app.hover_swatch, Some((_, Some(Color::Preset(3))))));
    d.click(32, 6);
    assert!(matches!(d.app.canvas.node(&id).unwrap().color, Some(Color::Preset(3))));
    assert!(d.app.color_picker.is_none());
    // A hex swatch of the row below, then the one that clears.
    d.click(26, 5);
    d.click(32, 7);
    assert!(matches!(&d.app.canvas.node(&id).unwrap().color, Some(Color::Hex(h)) if h == "#ff69b4"));
    d.click(26, 5);
    d.click(26, 6);
    assert!(d.app.canvas.node(&id).unwrap().color.is_none());
    // Escape closes the picker, then clears the selection, then quits.
    d.click(26, 5);
    d.press(Key::Esc);
    assert!(d.app.color_picker.is_none() && d.app.selected.is_some());
    d.press(Key::Esc);
    assert!(d.app.selected.is_none() && !d.app.should_quit);
    d.press(Key::Esc);
    assert!(d.app.should_quit);
}

#[test]
fn keys_on_a_selected_box() {
    let mut d = Desk::new();
    let id = d.place(10, 5, "");
    d.click(12, 6);
    d.press(Key::Char('c'));
    assert!(matches!(d.app.canvas.node(&id).unwrap().color, Some(Color::Preset(1))));
    d.press(Key::Char('x'));
    assert_eq!(d.app.canvas.node(&id).unwrap().shape, Shape::Rounded);
    d.press_with(Key::Char('z'), true, false);
    assert_eq!(d.app.canvas.node(&id).unwrap().shape, Shape::Rectangle);
    d.press_with(Key::Char('y'), true, false);
    assert_eq!(d.app.canvas.node(&id).unwrap().shape, Shape::Rounded);
    d.click(12, 6);
    d.press(Key::Char('d'));
    assert!(d.app.canvas.nodes.is_empty());
    d.press(Key::Char('s'));
    assert_eq!(d.app.status, "no file given on the command line — nothing to save to");
    d.press(Key::Char('q'));
    assert!(d.app.should_quit);
}

#[test]
fn a_box_grows_with_its_text_and_does_not_shrink() {
    assert_eq!(wrapped_height("", 10), 3);
    assert_eq!(wrapped_height("abcdefghijk", 10), 4);
    assert_eq!(wrapped_height("a\n\nb", 10), 5);
    let mut d = Desk::new();
    let id = d.place(10, 5, "");
    d.double_click(12, 6);
    d.press(Key::Enter);
    d.press(Key::Enter);
    assert_eq!(d.rect(&id).height, 5);
    d.press(Key::Backspace);
    d.press(Key::Backspace);
    d.write("x");
    assert_eq!(d.rect(&id).height, 5);
    for _ in 0..40 {
        d.press(Key::Enter);
    }
    // Not past the canvas's last row.
    assert_eq!(d.rect(&id).height, 18);
    d.press(Key::Esc);
    assert_eq!(d.text(&id).len(), 41);
}

#[test]
fn a_table_is_typed_cell_by_cell() {
    let mut d = Desk::new();
    let id = d.place(10, 5, "");
    d.click(12, 6);
    d.press(Key::Char('t'));
    assert!(matches!(&d.app.mode, Mode::EditingCell(_, 0, 0)));
    d.write("Name");
    d.press_with(Key::Right, true, false);
    d.write("Qty");
    d.press(Key::Tab);
    d.write("a");
    d.press(Key::Tab);
    d.write("1");
    d.press_with(Key::Enter, false, true);
    d.write("2");
    d.press(Key::Tab);
    d.write("b");
    d.press(Key::Up);
    assert_eq!(d.app.editing_text, "a");
    d.press(Key::Right);
    assert_eq!(d.app.editing_text, "1\n2");
    d.press(Key::BackTab);
    d.press(Key::Enter);
    d.press(Key::Enter);
    d.write("c");
    d.press(Key::Esc);
    assert_eq!(
        d.text(&id),
        "| Name | Qty |\n| --- | --- |\n| a | 1<br>2 |\n| b |  |\n| c |  |"
    );
    // The box has room for it all.
    let r = d.rect(&id);
    assert!(r.width >= 14 && r.height >= 8);
}

#[test]
fn rows_and_columns_are_added_and_taken_by_their_buttons() {
    let mut d = Desk::new();
    let id = d.place(10, 5, "| a | b |\n| --- | --- |\n| 1 | 2 |");
    d.click(12, 6);
    d.press(Key::Char('t'));
    let bottom = 5 + d.rect(&id).height;
    // +row, then -col.
    d.click(21, bottom);
    assert!(matches!(&d.app.mode, Mode::EditingCell(_, 1, 0)));
    let bottom = 5 + d.rect(&id).height;
    d.click(16, bottom);
    d.press(Key::Esc);
    assert_eq!(d.text(&id), "| b |\n| --- |\n|  |\n| 2 |");
    // The last column and the header stay.
    d.press(Key::Char('t'));
    d.press_with(Key::Left, true, false);
    d.press_with(Key::Up, true, false);
    d.press(Key::Esc);
    assert_eq!(d.text(&id), "| b |\n| --- |\n|  |\n| 2 |");
}

#[test]
fn a_click_on_a_cell_goes_there() {
    let mut d = Desk::new();
    let id = d.place(10, 5, "| aa | bb |\n| --- | --- |\n| 1 | 2 |");
    assert!(d.app.dispatch(Request::SetRect { id: id.clone(), x: 10, y: 5, w: 13, h: 5 }).is_ok());
    d.draw();
    d.double_click(18, 8);
    assert!(matches!(&d.app.mode, Mode::EditingCell(_, 1, 1)));
    assert_eq!(d.app.editing_text, "2");
    d.write("3");
    d.click(12, 6);
    assert!(matches!(&d.app.mode, Mode::EditingCell(_, 0, 0)));
    d.press(Key::Esc);
    assert_eq!(d.text(&id), "| aa | bb |\n| --- | --- |\n| 1 | 23 |");
}

#[test]
fn the_board_under_a_cell_of_the_screen() {
    let mut d = Desk::new();
    d.draw();
    d.app.camera = (-7, 9);
    assert_eq!(d.app.to_world(10, 2), (3, 11));
}

#[test]
fn a_hit_belongs_to_its_box() {
    use_node(HitTarget::Move(s("n1")), true);
    use_node(HitTarget::TableCell(s("n1"), 0, 0), true);
    use_node(HitTarget::TableMenu(s("n1"), ratslate::target::TableOp::AddRow), true);
    use_node(HitTarget::Reattach(s("n1"), ratslate::target::Endpoint::To), false);
    use_node(HitTarget::ColorMenu(Selected::Node(s("n1"))), false);
    use_node(HitTarget::ColorSwatch(Selected::Node(s("n1")), None), false);
    use_node(HitTarget::Minimap, false);
}

fn use_node(hit: HitTarget, has: bool) {
    assert_eq!(hit.node_id().map(|id| id.as_str()), if has { Some("n1") } else { None });
}

#[test]
fn a_release_can_be_taken_whatever_cell_is_open() {
    let mut d = Desk::new();
    let id = d.place(10, 5, "| a |\n| --- |\n| 1 |");
    d.click(12, 6);
    d.press(Key::Char('t'));
    d.app.mode = Mode::EditingCell(id.clone(), 7, 7);
    d.draw();
    let bottom = 5 + d.rect(&id).height;
    d.click(21, bottom);
    assert_eq!(d.app.editing_table.len(), 2);
}

#[test]
fn a_connector_lines_up_with_what_it_joins() {
    let mut d = Desk::new();
    let a = d.place(5, 5, "| a | b |\n| --- | --- |\n| 1 | 2 |");
    let b = d.place(50, 5, "| c |\n| --- |\n| 3 |");
    for id in [&a, &b] {
        let x = d.rect(id).x;
        assert!(d.app.dispatch(Request::SetRect { id: id.clone(), x, y: 5, w: 13, h: 5 }).is_ok());
    }
    d.draw();
    // From the dot of the second row, onto a cell of the other table.
    let (hit, _) = d.app.hits.at(18, 8).unwrap();
    assert!(matches!(hit, HitTarget::AnchorDot(id, at) if id == a && at.row == Some(1)));
    d.mouse(MouseKind::Moved, 52, 6, false);
    assert!(matches!(&d.app.hover_cell, Some((id, at)) if *id == b && at.row == Some(0)));
    d.drag((18, 8), (52, 8), false);
    let e = &d.app.canvas.edges[0];
    assert_eq!((e.from.as_str(), e.to.as_str()), (a.as_str(), b.as_str()));
    assert_eq!(e.from_anchor.map(|at| (at.row, at.col)), Some((Some(1), None)));
    assert_eq!(e.to_anchor.map(|at| (at.row, at.col)), Some((Some(1), Some(0))));
    // One step back takes it away; a click on a dot only selects.
    assert!(d.app.undo() && d.app.canvas.edges.is_empty());
    d.draw();
    d.click(18, 8);
    assert!(matches!(&d.app.selected, Some(Selected::Node(id)) if *id == a));
}

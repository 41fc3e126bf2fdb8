use ratslate::app::{App, Request, Response};
use ratslate::geometry::Rect;
use ratslate::grid::{inner_rect, TableView};
use ratslate::links::find_links;
use ratslate::minimap::MapLayout;
use ratslate::model::{CellAnchor, Color, Side, WorldRect};
use ratslate::paint::{corner_rects, ink, parse_hex, Ink, Look, Paint};
use ratslate::route::{
    arrow_char, clip, forced_vertical, fully_visible, inside, rect_at, route, route_glyphs,
    side_toward, sides_for, to_screen, ScreenRect,
};
use ratslate::sheet::{draw_color_picker, Sheet};
use ratslate::sync::Loaded;
use ratslate::table::Fraction;
use ratslate::target::{Corner, HitTarget, Selected};

const AREA: Rect = Rect { x: 0, y: 0, width: 40, height: 12 };
const STATUS: Rect = Rect { x: 0, y: 12, width: 40, height: 1 };
const SCREEN: Rect = Rect { x: 0, y: 0, width: 40, height: 13 };
const HALF: Fraction = Fraction { num: 1, den: 2 };

fn land(part: Fraction, span: u16) -> u16 {
    ((part.num as f32 / part.den as f32) * span as f32).round() as u16
}

fn place(x: i64, y: i64, width: u16, height: u16) -> ScreenRect {
    ScreenRect { x, y, width, height }
}

fn app() -> App {
    App::new(None, Loaded::New, None)
}

fn put(app: &mut App, x: i32, y: i32, w: u16, h: u16, text: &str) -> String {
    let id = match app.dispatch(Request::Place { x, y, w: Some(w), h: Some(h) }) {
        Ok(Response::Placed { id }) => id,
        _ => panic!("placed"),
    };
    assert!(app
        .dispatch(Request::SetText { id: id.clone(), text: text.to_string() })
        .is_ok());
    id
}

/// The characters on the screen, as far as single ones are drawn.
fn glyphs(paints: &[Paint]) -> Vec<String> {
    let mut rows = vec![vec![' '; SCREEN.width as usize]; SCREEN.height as usize];
    for p in paints {
        match p {
            Paint::Glyph { x, y, ch, .. } | Paint::Symbol { x, y, ch } => {
                rows[*y as usize][*x as usize] = *ch;
            }
            _ => {}
        }
    }
    rows.into_iter()
        .map(|r| r.into_iter().collect::<String>().trim_end().to_string())
        .collect()
}

#[test]
fn boxes_are_shown_through_the_camera() {
    let r = to_screen(WorldRect::new(-3, 10, 8, 4), (-5, 9), Rect::new(1, 2, 30, 10));
    assert_eq!(r, place(3, 3, 8, 4));
    assert_eq!(clip(place(-2, 9, 5, 9), AREA), Some(Rect::new(0, 9, 3, 3)));
    assert_eq!(clip(place(40, 0, 5, 5), AREA), None);
    assert!(fully_visible(place(0, 0, 40, 12), AREA));
    assert!(!fully_visible(place(-1, 0, 4, 4), AREA));
    assert!(inside(place(2, 2, 2, 2), 3, 3) && !inside(place(2, 2, 2, 2), 4, 3));
    assert_eq!(rect_at(5, 6), Rect::new(5, 6, 1, 1));
    assert_eq!(rect_at(-1, 6), Rect::new(0, 0, 0, 0));
    assert_eq!(rect_at(70_000, 6), Rect::new(0, 0, 0, 0));
}

#[test]
fn connectors_run_straight_or_bend_once() {
    let a = place(0, 0, 6, 5);
    let beside = place(20, 1, 6, 5);
    let below = place(2, 20, 8, 3);
    let apart = place(20, 20, 5, 3);
    assert_eq!(sides_for(a, beside), (Side::Right, Side::Left));
    assert_eq!(sides_for(beside, a), (Side::Left, Side::Right));
    assert_eq!(sides_for(a, below), (Side::Bottom, Side::Top));
    assert_eq!(sides_for(a, apart), (Side::Right, Side::Top));
    assert_eq!(route(a, beside, HALF, HALF, None, &land), vec![(6, 3), (19, 3)]);
    assert_eq!(route(a, below, HALF, HALF, None, &land), vec![(4, 5), (4, 19)]);
    assert_eq!(route(a, apart, HALF, HALF, None, &land), vec![(6, 2), (22, 2), (22, 19)]);
    // Sides that are given are used, whatever the positions suggest.
    let w = route(a, beside, HALF, HALF, Some((Side::Top, Side::Bottom)), &land);
    assert_eq!(w, vec![(3, -1), (3, 2), (23, 2), (23, 6)]);
    let w = route(a, beside, HALF, HALF, Some((Side::Left, Side::Top)), &land);
    assert_eq!(w, vec![(-1, 2), (-1, 0), (23, 0)]);
    for p in route(beside, apart, HALF, HALF, None, &land).windows(2) {
        assert!(p[0].0 == p[1].0 || p[0].1 == p[1].1);
    }
}

#[test]
fn anchors_pin_an_axis() {
    let row = Some(CellAnchor { row: Some(1), col: None });
    let col = Some(CellAnchor { row: None, col: Some(1) });
    let cell = Some(CellAnchor { row: Some(1), col: Some(1) });
    assert_eq!(forced_vertical(row), Some(false));
    assert_eq!(forced_vertical(col), Some(true));
    assert_eq!(forced_vertical(cell), None);
    assert_eq!(forced_vertical(None), None);
    let (a, b) = (place(0, 0, 4, 4), place(9, 9, 4, 4));
    assert_eq!(side_toward(a, b, true), Side::Bottom);
    assert_eq!(side_toward(b, a, true), Side::Top);
    assert_eq!(side_toward(a, b, false), Side::Right);
    assert_eq!(side_toward(b, a, false), Side::Left);
}

#[test]
fn paths_are_drawn_in_box_characters() {
    let g = route_glyphs(&vec![(0, 0), (2, 0), (2, 2)]);
    assert_eq!(
        g,
        vec![(0, 0, '─'), (1, 0, '─'), (2, 0, '┐'), (2, 1, '│'), (2, 2, '│')]
    );
    let g = route_glyphs(&vec![(2, 2), (2, 0), (0, 0)]);
    assert_eq!(g[2], (2, 0, '┐'));
    let g = route_glyphs(&vec![(0, 0), (0, 1), (1, 1)]);
    assert_eq!(g[1], (0, 1, '└'));
    // Each cell touches the next.
    for p in g.windows(2) {
        assert_eq!((p[0].0 - p[1].0).abs() + (p[0].1 - p[1].1).abs(), 1);
    }
    assert_eq!(arrow_char(3, 0), '>');
    assert_eq!(arrow_char(-3, 1), '<');
    assert_eq!(arrow_char(0, 2), 'v');
    assert_eq!(arrow_char(0, -2), '^');
    assert_eq!(arrow_char(0, 0), '>');
}

#[test]
fn colors_of_the_terminal() {
    assert_eq!(parse_hex("#ff8800"), Some(Ink::Rgb(255, 136, 0)));
    assert_eq!(parse_hex("#FFaa0g"), None);
    assert_eq!(parse_hex("ff8800"), None);
    assert_eq!(parse_hex("#fff"), None);
    assert_eq!(parse_hex("#+f0000"), Some(Ink::Rgb(15, 0, 0)));
    assert_eq!(ink(&Color::Preset(1)), Ink::Red);
    assert_eq!(ink(&Color::Preset(2)), Ink::Rgb(255, 140, 0));
    assert_eq!(ink(&Color::Preset(6)), Ink::Rgb(160, 32, 240));
    assert_eq!(ink(&Color::Preset(9)), Ink::Reset);
    assert_eq!(ink(&Color::Hex("nope".to_string())), Ink::Reset);
}

#[test]
fn corners_and_insides() {
    let v = corner_rects(Rect::new(2, 3, 5, 4));
    assert_eq!(v[0], (Corner::TopLeft, Rect::new(2, 3, 1, 1)));
    assert_eq!(v[3], (Corner::BottomRight, Rect::new(6, 6, 1, 1)));
    assert_eq!(inner_rect(Rect::new(2, 3, 5, 4)), Rect::new(3, 4, 3, 2));
    assert_eq!(inner_rect(Rect { x: 2, y: 3, width: 1, height: 0 }), Rect { x: 3, y: 3, width: 0, height: 0 });
}

#[test]
fn a_frame_shows_boxes_and_a_connector() {
    let mut a = app();
    let x = put(&mut a, 0, 0, 6, 3, "one");
    let y = put(&mut a, 20, 0, 6, 3, "");
    assert!(a.dispatch(Request::Connect { from: x.clone(), to: y.clone() }).is_ok());
    let paints = a.render(AREA, STATUS, SCREEN, &land);
    assert_eq!(glyphs(&paints)[1], "      ─────────────>");
    let frames: Vec<&Rect> = paints
        .iter()
        .filter_map(|p| match p {
            Paint::Frame { area, .. } => Some(area),
            _ => None,
        })
        .collect();
    assert_eq!(frames, vec![&Rect::new(0, 0, 6, 3), &Rect::new(20, 0, 6, 3)]);
    assert!(paints.iter().any(|p| matches!(p, Paint::Wrapped { area, text, .. }
        if *area == Rect::new(1, 1, 4, 1) && text == "one")));
    assert!(matches!(paints.last(), Some(Paint::Text { area, text, .. })
        if *area == STATUS && text.starts_with("NORMAL —  — drag empty space")));
    assert!(matches!(a.hits.at(2, 1), Some((HitTarget::Move(id), _)) if id == x));
    assert!(matches!(a.hits.at(0, 0), Some((HitTarget::Resize(_, Corner::TopLeft), _))));
    assert!(matches!(a.edge_hits.at(10, 1), Some((id, _)) if id == "n3"));
    assert_eq!(a.canvas_area, AREA);
}

#[test]
fn a_box_off_the_canvas_is_a_bare_frame_or_nothing() {
    let mut a = app();
    put(&mut a, -3, 0, 6, 3, "cut");
    put(&mut a, 100, 0, 6, 3, "gone");
    let paints = a.render(AREA, STATUS, SCREEN, &land);
    assert_eq!(paints.len(), 2);
    assert!(matches!(&paints[0], Paint::Frame { area, look, .. }
        if *area == Rect::new(0, 0, 3, 3) && *look == Look::plain()));
    a.camera = (90, 0);
    let paints = a.render(AREA, STATUS, SCREEN, &land);
    assert!(matches!(&paints[1], Paint::Wrapped { text, .. } if text == "gone"));
}

#[test]
fn connectors_that_share_a_side_are_spread() {
    let mut a = app();
    let x = put(&mut a, 0, 0, 6, 9, "");
    let y = put(&mut a, 30, 0, 6, 9, "");
    assert!(a.dispatch(Request::Connect { from: x.clone(), to: y.clone() }).is_ok());
    assert!(a.dispatch(Request::Connect { from: x, to: y }).is_ok());
    let links = find_links(&a.canvas, a.camera, AREA, &None);
    let parts: Vec<(u64, u64)> =
        links.iter().map(|l| l.unwrap()).map(|l| (l.from_part.num, l.from_part.den)).collect();
    assert_eq!(parts, vec![(1, 3), (2, 3)]);
    let parts: Vec<(u64, u64)> =
        links.iter().map(|l| l.unwrap()).map(|l| (l.to_part.num, l.to_part.den)).collect();
    assert_eq!(parts, vec![(1, 3), (2, 3)]);
    let paints = a.render(AREA, STATUS, SCREEN, &land);
    let rows = glyphs(&paints);
    assert!(rows[3].ends_with("─>") && rows[5].ends_with("─>"));
}

#[test]
fn an_anchored_end_sits_at_its_row() {
    let mut a = app();
    let t = put(&mut a, 0, 0, 9, 6, "| a |\n| --- |\n| 1 |\n| 2 |");
    let y = put(&mut a, 25, 0, 6, 6, "");
    assert!(a.dispatch(Request::Connect { from: t, to: y }).is_ok());
    a.canvas.edges[0].from_anchor = Some(CellAnchor { row: Some(2), col: None });
    let l = find_links(&a.canvas, a.camera, AREA, &None)[0].unwrap();
    assert_eq!((l.from_part.num, l.from_part.den), (9, 12));
    assert_eq!((l.to_part.num, l.to_part.den), (9, 12));
    assert_eq!(l.sides, Some((Side::Right, Side::Left)));
    let paints = a.render(AREA, STATUS, SCREEN, &land);
    // Where both ends are pinned, the midpoint of a level line is marked.
    assert_eq!(glyphs(&paints)[4], "         ●──────+───────>");
}

#[test]
fn a_table_is_a_grid() {
    let view = TableView {
        id: "t".to_string(),
        rect: Rect::new(0, 0, 14, 6),
        table: vec![
            vec!["a".to_string(), "bbbb".to_string()],
            vec!["1<br>2".to_string(), "日".to_string()],
        ],
        cursor: Some((1, 0)),
        look: Look::plain(),
    };
    let mut sheet = Sheet::new(SCREEN);
    view.draw(&mut sheet, &land);
    let lines: Vec<String> = sheet
        .out
        .iter()
        .filter_map(|p| match p {
            Paint::Spans { spans, .. } => {
                Some(spans.iter().map(|(t, _)| t.as_str()).collect::<String>())
            }
            Paint::Text { text, .. } => Some(text.clone()),
            _ => None,
        })
        .collect();
    assert_eq!(
        lines,
        vec![" a   │ bbbb ", "─────┼──────", " 1   │ 日   ", " 2  ▏│      "]
    );
    let bold = matches!(&sheet.out[0], Paint::Spans { spans, .. } if spans[0].1.bold && !spans[1].1.bold);
    assert!(bold);
    assert!(matches!(&sheet.out[2], Paint::Spans { spans, .. } if spans[0].1.reversed));
    let marks = glyphs(&sheet.out);
    assert_eq!(marks[0], "      ┬");
    assert_eq!(marks[2], "├            ┤");
    assert_eq!(marks[5], "      ┴");
    assert!(matches!(sheet.hits.at(2, 3), Some((HitTarget::TableCell(_, 1, 0), _))));
    assert!(matches!(sheet.hits.at(9, 1), Some((HitTarget::TableCell(_, 0, 1), _))));
    // The grab points beside the border.
    assert!(matches!(sheet.hits.at(14, 1), Some((HitTarget::AnchorDot(_, a), _)) if a.row == Some(0)));
    assert!(matches!(sheet.hits.at(9, 6), Some((HitTarget::AnchorDot(_, a), _)) if a.col == Some(1)));
}

#[test]
fn a_picker_has_thirteen_swatches() {
    let mut sheet = Sheet::new(SCREEN);
    let target = Selected::Edge("e".to_string());
    draw_color_picker(&mut sheet, &target, 3, 4, AREA);
    assert_eq!(sheet.out.len(), 13);
    assert!(matches!(&sheet.out[0], Paint::Text { area, text, .. }
        if *area == Rect::new(3, 4, 2, 1) && text == "╳ "));
    assert!(matches!(sheet.hits.at(15, 4), Some((HitTarget::ColorSwatch(_, Some(c)), _)) if c == "6"));
    assert!(matches!(sheet.hits.at(4, 5), Some((HitTarget::ColorSwatch(_, Some(c)), _)) if c == "#ffffff"));
    // Nothing of it is drawn off the canvas.
    let mut cut = Sheet::new(SCREEN);
    draw_color_picker(&mut cut, &target, 36, 11, AREA);
    assert_eq!(cut.out.len(), 2);
}

#[test]
fn the_map_has_a_dot_per_box() {
    let mut a = app();
    put(&mut a, 0, 0, 6, 4, "");
    put(&mut a, -100, 50, 3, 3, "");
    a.render(AREA, STATUS, SCREEN, &land);
    assert_eq!(a.map_points(), vec![(3, 2), (-99, 51)]);
    let mut sheet = Sheet::new(SCREEN);
    let map = MapLayout {
        area: Rect::new(20, 5, 10, 5),
        first: (21, 6),
        end: (23, 7),
        dots: vec![(22, 6), (25, 8)],
    };
    a.draw_minimap(&mut sheet, &map);
    assert!(matches!(&sheet.out[0], Paint::Blank { .. }));
    assert!(matches!(&sheet.out[1], Paint::Panel { title, .. } if title == "map"));
    assert!(matches!(&sheet.out[2], Paint::Fill { area, .. } if *area == Rect::new(21, 6, 3, 2)));
    let marks = glyphs(&sheet.out);
    assert!(marks[6].ends_with('▪') && marks[8].ends_with('▪'));
    assert!(matches!(sheet.hits.at(24, 7), Some((HitTarget::Minimap, _))));
    // In a frame it lies over the board and under nothing but the status.
    let id = put(&mut a, 18, 5, 12, 5, "under");
    let map = MapLayout { dots: vec![(22, 6), (25, 8), (26, 8)], ..map };
    let paints = a.render_with_map(AREA, STATUS, SCREEN, &Some(map), &land);
    assert!(matches!(a.hits.at(24, 7), Some((HitTarget::Minimap, _))));
    assert!(matches!(a.hits.at(19, 7), Some((HitTarget::Move(n), _)) if n == id));
    let n = paints.len();
    assert!(matches!(&paints[n - 2], Paint::Glyph { x: 26, y: 8, ch: '▪', .. }));
}

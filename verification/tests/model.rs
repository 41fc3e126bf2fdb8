use ratslate::model::{Canvas, Color, EdgeEnd, NodeKind, Shape, WorldRect};

#[test]
fn colors_cycle_through_the_presets() {
    let mut color: Option<Color> = None;
    let mut seen: Vec<String> = Vec::new();
    for _ in 0..7 {
        color = Color::cycle(color.as_ref());
        seen.push(color.as_ref().map(|c| c.to_string()).unwrap_or_default());
    }
    assert_eq!(seen, vec!["1", "2", "3", "4", "5", "6", ""]);
    assert!(Color::cycle(Some(&Color::Hex("#fff".to_string()))).is_none());
}

#[test]
fn colors_read_back() {
    assert!(matches!(Color::parse("4"), Color::Preset(4)));
    assert!(matches!(Color::parse("7"), Color::Hex(_)));
    assert_eq!(Color::parse("#ff8800").to_string(), "#ff8800");
    assert_eq!(Color::parse("6").to_string(), "6");
}

#[test]
fn shapes() {
    assert_eq!(Shape::default(), Shape::Rectangle);
    assert_eq!(Shape::Rectangle.cycle(), Shape::Rounded);
    assert_eq!(Shape::Rounded.cycle(), Shape::Rectangle);
    assert_eq!(Shape::parse("rounded"), Shape::Rounded);
    assert_eq!(Shape::parse("anything"), Shape::Rectangle);
    assert_eq!(Shape::Rounded.as_str(), Some("rounded"));
    assert_eq!(Shape::Rectangle.as_str(), None);
}

#[test]
fn boxes_and_connectors_get_fresh_ids() {
    let mut c = Canvas::default();
    let a = c.place_text(3, -4, None, None);
    let b = c.place_text(30, 0, Some(9), Some(5));
    assert_eq!((a.as_str(), b.as_str()), ("n1", "n2"));
    assert_eq!(c.node("n1").unwrap().rect, WorldRect::new(3, -4, 16, 3));
    assert_eq!(c.node("n2").unwrap().rect, WorldRect::new(30, 0, 9, 5));
    let e = c.connect(a, b);
    assert_eq!(e, "n3");
    let edge = c.edge("n3").unwrap();
    assert_eq!((edge.from.as_str(), edge.to.as_str()), ("n1", "n2"));
    assert_eq!(edge.from_end, EdgeEnd::Plain);
    assert_eq!(edge.to_end, EdgeEnd::Arrow);
    c.set_next_id(40);
    c.set_next_id(7);
    assert_eq!(c.place_text(0, 0, None, None), "n41");
}

#[test]
fn deleting_a_box_takes_its_connectors() {
    let mut c = Canvas::default();
    let a = c.place_text(0, 0, None, None);
    let b = c.place_text(0, 9, None, None);
    let d = c.place_text(0, 18, None, None);
    let ab = c.connect(a.clone(), b.clone());
    let bd = c.connect(b.clone(), d.clone());
    let ad = c.connect(a.clone(), d.clone());
    c.delete(&b);
    assert!(c.node(&b).is_none());
    assert!(c.edge(&ab).is_none() && c.edge(&bd).is_none());
    assert!(c.edge(&ad).is_some());
    c.delete_edge(&ad);
    assert!(c.edges.is_empty());
    assert_eq!(c.nodes.len(), 2);
}

#[test]
fn only_text_can_be_edited() {
    let mut c = Canvas::default();
    let a = c.place_text(0, 0, None, None);
    c.edit_text(&a, |t| t + "hi");
    assert!(matches!(&c.node(&a).unwrap().kind, NodeKind::Text(t) if t == "hi"));
    c.node_mut(&a).unwrap().kind = NodeKind::Link("u".to_string());
    c.edit_text(&a, |_| "no".to_string());
    assert!(matches!(&c.node(&a).unwrap().kind, NodeKind::Link(u) if u == "u"));
    c.edge_mut("none").is_none().then_some(()).unwrap();
}

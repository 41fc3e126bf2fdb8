use ratslate::canvas_io::{
    from_file, parse_side, side_to_string, to_file, FileAnchor, FileEdge, FileNode, FileRoot,
};
use ratslate::model::{CellAnchor, EdgeEnd, NodeKind, Shape, Side, WorldRect};

fn text(id: &str, x: i64, y: i64, width: i64, height: i64, shape: Option<&str>) -> FileNode {
    FileNode::Text {
        id: id.to_string(),
        x,
        y,
        width,
        height,
        color: Some("3".to_string()),
        shape: shape.map(|s| s.to_string()),
        text: "hello".to_string(),
    }
}

fn edge(id: &str, from: &str, to: &str) -> FileEdge {
    FileEdge {
        id: id.to_string(),
        from_node: from.to_string(),
        from_side: Some("left".to_string()),
        from_end: None,
        from_anchor: Some(FileAnchor { row: Some(2), col: None }),
        to_node: to.to_string(),
        to_side: Some("nowhere".to_string()),
        to_end: None,
        to_anchor: None,
        color: None,
        label: Some("l".to_string()),
    }
}

#[test]
fn a_board_reads_from_its_file() {
    let root = FileRoot {
        nodes: vec![
            text("n7", -5, 6, 20, 4, Some("rounded")),
            FileNode::File {
                id: "f".to_string(),
                x: 0,
                y: 0,
                width: 0,
                height: 999_999,
                color: None,
                file: "a.md".to_string(),
                subpath: Some("#h".to_string()),
            },
            FileNode::Group {
                id: "g".to_string(),
                x: 1 << 40,
                y: -(1 << 40),
                width: 10,
                height: 10,
                color: None,
                label: None,
                background: Some("b.png".to_string()),
                background_style: Some("cover".to_string()),
            },
        ],
        edges: vec![edge("n9", "n7", "f")],
    };
    let c = from_file(&root);
    assert_eq!(c.nodes[0].rect, WorldRect::new(-5, 6, 20, 4));
    assert_eq!(c.nodes[0].shape, Shape::Rounded);
    assert_eq!(c.nodes[1].rect, WorldRect::new(0, 0, 1, 65535));
    assert_eq!(c.nodes[1].shape, Shape::Rectangle);
    assert_eq!(c.nodes[2].rect, WorldRect::new(i32::MAX, i32::MIN, 10, 10));
    assert!(matches!(&c.nodes[1].kind, NodeKind::File { path, subpath: Some(s) } if path == "a.md" && s == "#h"));
    let e = &c.edges[0];
    assert_eq!((e.from_side, e.to_side), (Some(Side::Left), None));
    assert_eq!((e.from_end, e.to_end), (EdgeEnd::Plain, EdgeEnd::Arrow));
    assert_eq!(e.from_anchor, Some(CellAnchor { row: Some(2), col: None }));
    // The next id is past every one in use.
    let mut c = c;
    assert_eq!(c.place_text(0, 0, None, None), "n10");
}

#[test]
fn a_board_writes_back_what_it_read() {
    let root = FileRoot {
        nodes: vec![text("a", -5, 6, 20, 4, None)],
        edges: vec![FileEdge {
            to_side: Some("top".to_string()),
            to_end: Some("none".to_string()),
            from_end: Some("arrow".to_string()),
            ..edge("e", "a", "a")
        }],
    };
    let back = to_file(&from_file(&root));
    match &back.nodes[0] {
        FileNode::Text { id, x, y, width, height, color, shape, text } => {
            assert_eq!(id, "a");
            assert_eq!((*x, *y, *width, *height), (-5, 6, 20, 4));
            assert_eq!(color.as_deref(), Some("3"));
            assert_eq!(*shape, None);
            assert_eq!(text, "hello");
        }
        _ => panic!("a text box"),
    }
    let e = &back.edges[0];
    assert_eq!(e.from_side.as_deref(), Some("left"));
    assert_eq!(e.to_side.as_deref(), Some("top"));
    assert_eq!(e.from_end.as_deref(), Some("arrow"));
    assert_eq!(e.to_end.as_deref(), Some("none"));
    assert_eq!(e.from_anchor, Some(FileAnchor { row: Some(2), col: None }));
    assert_eq!(e.label.as_deref(), Some("l"));
}

#[test]
fn sides_have_names() {
    for (side, name) in [
        (Side::Top, "top"),
        (Side::Right, "right"),
        (Side::Bottom, "bottom"),
        (Side::Left, "left"),
    ] {
        assert_eq!(side_to_string(side), name);
        assert_eq!(parse_side(name), Some(side));
    }
    assert_eq!(parse_side("middle"), None);
}

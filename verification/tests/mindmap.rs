use ratslate::mindmap::{
    apply_move, depth_key, parse, parse_heading, parse_list_item, set_text, Kind, Target,
};

fn doc(s: &str) -> Vec<String> {
    s.lines().map(|l| l.to_string()).collect()
}

fn sample() -> Vec<String> {
    doc("# A\n- x\n  - y\n## B\n- z")
}

#[test]
fn headings_and_items_nest() {
    let t = parse(&sample());
    assert_eq!(t.roots, vec![1]);
    let shape: Vec<(u64, Option<u64>, usize, usize, usize)> = (1..=5)
        .map(|id| {
            let n = t.node(id).unwrap();
            (id, n.parent, n.depth, n.line, n.end)
        })
        .collect();
    assert_eq!(
        shape,
        vec![
            (1, None, 0, 0, 5),
            (2, Some(1), 1, 1, 3),
            (3, Some(2), 2, 2, 3),
            (4, Some(1), 1, 3, 5),
            (5, Some(4), 2, 4, 5),
        ]
    );
    assert_eq!(t.node(1).unwrap().children, vec![2, 4]);
    assert!(t.node(6).is_none());
}

#[test]
fn prose_travels_with_its_node_and_blanks_stay_behind() {
    let t = parse(&doc("# A\ntext\n\n# B\n"));
    assert_eq!((t.node(1).unwrap().line, t.node(1).unwrap().end), (0, 2));
}

#[test]
fn lines_that_are_headings_or_items() {
    assert_eq!(parse_heading("## Hi "), Some((2, "Hi".to_string())));
    assert_eq!(parse_heading("#"), Some((1, String::new())));
    assert_eq!(parse_heading("#x"), None);
    assert_eq!(parse_heading("####### x"), None);
    assert_eq!(parse_list_item("  * a b "), Some((2, '*', "a b ".to_string())));
    assert_eq!(parse_list_item("-x"), None);
    assert_eq!(parse_list_item(""), None);
    assert_eq!(depth_key(Kind::Heading(3), 0), (0, 3));
    assert_eq!(depth_key(Kind::ListItem('-'), 4), (1, 4));
}

#[test]
fn flat_is_document_order_without_what_is_held() {
    let t = parse(&sample());
    assert_eq!(t.flat(None), vec![1, 2, 3, 4, 5]);
    assert_eq!(t.flat(Some(2)), vec![1, 4, 5]);
}

#[test]
fn gaps_mean_places_in_the_tree() {
    let t = parse(&sample());
    let flat = t.flat(Some(2));
    let place = |slot: usize| {
        let r = t.resolve_target(&flat, slot);
        (r.parent, r.index)
    };
    assert_eq!(place(0), (None, 0));
    assert_eq!(place(1), (Some(1), 0));
    assert_eq!(place(2), (Some(4), 0));
    assert_eq!(place(3), (Some(4), 1));
    assert_eq!(place(9), (None, 0));
}

#[test]
fn a_move_without_a_change_of_depth_moves_lines_only() {
    let lines = sample();
    let t = parse(&lines);
    let mv = t.plan_move(2, &Target { parent: Some(4), index: 0 }).unwrap();
    assert!(mv.can_apply(lines.len()));
    assert_eq!(mv.delta, 0);
    assert_eq!(apply_move(&lines, &mv), doc("# A\n## B\n- x\n  - y\n- z"));
}

#[test]
fn a_move_deeper_rewrites_its_own_lines_only() {
    let lines = sample();
    let t = parse(&lines);
    let mv = t.plan_move(5, &Target { parent: Some(2), index: 0 }).unwrap();
    assert_eq!(apply_move(&lines, &mv), doc("# A\n- x\n  - z\n  - y\n## B"));
    let mv = t.plan_move(4, &Target { parent: None, index: 1 }).unwrap();
    assert_eq!(mv.delta, -1);
    assert_eq!(apply_move(&lines, &mv), doc("# A\n- x\n  - y\n# B\n- z"));
}

#[test]
fn a_heading_cannot_go_under_a_list_item() {
    let t = parse(&sample());
    assert!(t.plan_move(4, &Target { parent: Some(2), index: 0 }).is_none());
}

#[test]
fn text_is_replaced_in_its_own_line() {
    let mut lines = sample();
    let t = parse(&lines);
    set_text(&mut lines, &t, 3, "w");
    set_text(&mut lines, &t, 4, "C");
    set_text(&mut lines, &t, 99, "nobody");
    assert_eq!(lines, doc("# A\n- x\n  - w\n## C\n- z"));
}

fn rows(lines: &[&str]) -> Vec<String> {
    lines.iter().map(|l| l.to_string()).collect()
}

#[test]
fn what_stands_in_a_code_fence_is_not_read() {
    let tree = parse(&rows(&["- a", "```", "# x", "```", "- b"]));
    assert_eq!(tree.nodes.len(), 2);
    assert_eq!(tree.roots, vec![1, 2]);
    let a = tree.node(1).unwrap();
    assert_eq!((a.text.as_str(), a.line, a.end), ("a", 0, 4));
    let b = tree.node(2).unwrap();
    assert_eq!((b.text.as_str(), b.line, b.end), ("b", 4, 5));
    // Only as many of the same mark close it; what is open stays open.
    let tree = parse(&rows(&["# t", "  ~~~~ rust", "```", "~~~", "# x", "~~~~~ ", "# y", "```", "# z"]));
    let texts: Vec<&str> = (1..=tree.nodes.len() as u64).map(|i| tree.node(i).unwrap().text.as_str()).collect();
    assert_eq!(texts, vec!["t", "y"]);
    // Code within a line opens nothing.
    assert_eq!(parse(&rows(&["```x```", "# h"])).nodes.len(), 1);
}

#[test]
fn a_fence_moves_as_it_is() {
    let lines = rows(&["# a", "## b", "```", "## x", "```", "# c"]);
    let mv = parse(&lines).plan_move(2, &Target { parent: None, index: 2 }).unwrap();
    assert_eq!(apply_move(&lines, &mv), rows(&["# a", "# c", "# b", "```", "## x", "```"]));
}

#[test]
fn a_reorder_rewrites_nothing() {
    let lines = rows(&["## A", "## B"]);
    let mv = parse(&lines).plan_move(1, &Target { parent: None, index: 1 }).unwrap();
    assert_eq!(apply_move(&lines, &mv), rows(&["## B", "## A"]));
    let lines = rows(&["- p", "     - a", "     - b"]);
    let mv = parse(&lines).plan_move(3, &Target { parent: Some(1), index: 0 }).unwrap();
    assert_eq!(apply_move(&lines, &mv), rows(&["- p", "     - b", "     - a"]));
}

#[test]
fn a_gap_is_counted_without_the_held_node() {
    let tree = parse(&rows(&["- a", "- b", "- c"]));
    let flat = tree.flat(Some(1));
    assert_eq!(flat, vec![2, 3]);
    let t = tree.resolve_target(&flat, 1);
    assert_eq!((t.parent, t.index), (None, 1));
    // With nothing held the gap is the place of the row below it.
    let tree = parse(&rows(&["# a", "- b", "  - c", "- d", "# e"]));
    let flat = tree.flat(None);
    let at = |slot: usize| {
        let t = tree.resolve_target(&flat, slot);
        (t.parent, t.index)
    };
    assert_eq!(at(0), (None, 0));
    assert_eq!(at(1), (Some(1), 0));
    assert_eq!(at(2), (Some(2), 0));
    assert_eq!(at(3), (Some(1), 1));
    assert_eq!(at(4), (None, 1));
    assert_eq!(at(5), (None, 2));
}

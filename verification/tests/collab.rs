use ratslate::app::{App, Request, Response};
use ratslate::collab::{crdt_path, Collab, EdgeFields, NodeFields, Stamp};
use ratslate::model::NodeKind;
use ratslate::sidecar::is_readable;
use ratslate::sync::{edge_fields, edge_from_fields, node_fields, node_from_fields, Loaded};

fn s(t: &str) -> String {
    t.to_string()
}

fn fields(text: &str) -> NodeFields {
    NodeFields {
        x: -3,
        y: 4,
        w: 16,
        h: 3,
        text: s(text),
        subpath: None,
        color: Some(s("2")),
        shape: s("rounded"),
        kind: s("text"),
    }
}

fn texts(c: &Collab) -> Vec<(String, String)> {
    let mut v: Vec<(String, String)> =
        c.snapshot().into_iter().map(|(id, f)| (id, f.text)).collect();
    v.sort();
    v
}

#[test]
fn what_was_written_is_what_a_snapshot_gives() {
    let mut c = Collab::open(1);
    assert!(c.snapshot().is_empty() && c.snapshot_edges().is_empty());
    c.set_node("a", &fields("one"));
    c.set_node("b", &fields("two"));
    c.set_node("a", &fields("three"));
    assert_eq!(texts(&c), vec![(s("a"), s("three")), (s("b"), s("two"))]);
    let (_, f) = c.snapshot().into_iter().find(|(id, _)| id == "a").unwrap();
    assert_eq!((f.x, f.y, f.w, f.h), (-3, 4, 16, 3));
    assert_eq!(f.color.as_deref(), Some("2"));
    assert_eq!((f.shape.as_str(), f.kind.as_str()), ("rounded", "text"));
    assert_eq!(f.subpath, None);
    c.remove_node("a");
    c.remove_node("nobody");
    assert_eq!(texts(&c), vec![(s("b"), s("two"))]);
    c.set_edge(
        "e",
        &EdgeFields {
            from: s("a"),
            to: s("b"),
            from_side: Some(s("left")),
            to_side: None,
            from_end: s("none"),
            to_end: s("arrow"),
            from_row: Some(2),
            from_col: None,
            to_row: None,
            to_col: Some(0),
            color: None,
            label: Some(s("l")),
        },
    );
    let edges = c.snapshot_edges();
    assert_eq!(edges.len(), 1);
    let (id, f) = &edges[0];
    assert_eq!(id, "e");
    assert_eq!((f.from.as_str(), f.to.as_str()), ("a", "b"));
    assert_eq!((f.from_side.as_deref(), f.to_side.as_deref()), (Some("left"), None));
    assert_eq!((f.from_end.as_str(), f.to_end.as_str()), ("none", "arrow"));
    assert_eq!((f.from_row, f.from_col, f.to_row, f.to_col), (Some(2), None, None, Some(0)));
    assert_eq!((f.color.as_deref(), f.label.as_deref()), (None, Some("l")));
    c.remove_edge("e");
    assert!(c.snapshot_edges().is_empty());
}

#[test]
fn two_writers_merge() {
    let mut a = Collab::open(1);
    let mut b = Collab::open(2);
    a.set_node("x", &fields("from a"));
    b.set_node("y", &fields("from b"));
    assert!(a.pull(&b.state()));
    assert!(b.pull(&a.state()));
    let want = vec![(s("x"), s("from a")), (s("y"), s("from b"))];
    assert_eq!(texts(&a), want);
    assert_eq!(texts(&b), want);
    // One's own state merged in again changes nothing.
    let own = a.state();
    assert!(a.pull(&own));
    assert_eq!(texts(&a), want);
    assert!(!a.pull(&[1, 2, 3, 250]));
    assert_eq!(texts(&a), want);
}

#[test]
fn the_sidecar_is_read_when_it_moved() {
    let mut c = Collab::open(7);
    let t = Some(Stamp { secs: 5, nanos: 1 });
    assert!(!c.needs_read(None));
    assert!(c.needs_read(t));
    assert!(!c.needs_read(t));
    c.note_written(Some(Stamp { secs: 6, nanos: 0 }));
    assert!(!c.needs_read(Some(Stamp { secs: 6, nanos: 0 })));
    assert!(c.needs_read(t));
    assert_eq!(crdt_path("dir/b.canvas"), "dir/b.canvas.crdt");
}

fn open(path: &str, c: Collab) -> App {
    App::new(Some(s(path)), Loaded::New, Some(c))
}

fn place(app: &mut App, text: &str) -> String {
    let id = match app.dispatch(Request::Place { x: 5, y: 6, w: None, h: None }) {
        Ok(Response::Placed { id }) => id,
        _ => panic!("placed"),
    };
    assert!(app.dispatch(Request::SetText { id: id.clone(), text: s(text) }).is_ok());
    id
}

fn board(app: &App) -> Vec<(String, String)> {
    let mut v: Vec<(String, String)> = app
        .canvas
        .nodes
        .iter()
        .map(|n| match &n.kind {
            NodeKind::Text(t) => (n.id.clone(), t.clone()),
            _ => panic!("text"),
        })
        .collect();
    v.sort();
    v
}

#[test]
fn another_writers_change_is_merged_in() {
    let mut a = open("b.canvas", Collab::open(1));
    let id = place(&mut a, "one");
    let bytes = a.sync_pending(None).unwrap();
    assert!(a.pending.is_empty());
    assert!(a.sync_pending(None).is_none());

    // The next to open the board sees it, without a file.
    let mut c = Collab::open(2);
    assert!(c.pull(&bytes));
    let mut b = open("b.canvas", c);
    assert_eq!(board(&b), vec![(id.clone(), s("one"))]);
    assert!(b.pending.is_empty());

    // It edits the box, and the first picks that up.
    assert!(b.dispatch(Request::SetText { id: id.clone(), text: s("two") }).is_ok());
    let other = place(&mut b, "new");
    assert_ne!(id, other);
    let bytes = b.sync_pending(None).unwrap();
    assert!(a.can_pull());
    assert!(a.pull_collab(&bytes));
    assert_eq!(board(&a), vec![(id.clone(), s("two")), (other, s("new"))]);
    assert_eq!(a.status, "merged a change from another writer");
    assert!(!a.pull_collab(&[9, 9, 9, 255]));

    // A merge can be undone, and that is mirrored in full.
    assert!(a.undo());
    assert_eq!(board(&a), vec![(id.clone(), s("one"))]);
    let bytes = a.sync_pending(Some(&bytes)).unwrap();
    assert!(b.pull_collab(&bytes));
    assert_eq!(board(&b), vec![(id, s("one"))]);
}

#[test]
fn a_file_seeds_an_empty_merge_state() {
    let mut first = App::new(None, Loaded::New, None);
    place(&mut first, "one");
    place(&mut first, "two");
    let root = ratslate::canvas_io::to_file(&first.canvas);
    let mut a = App::new(Some(s("b.canvas")), Loaded::Board(root), Some(Collab::open(3)));
    assert_eq!(a.status, "loaded b.canvas");
    assert_eq!(board(&a), vec![(s("n1"), s("one")), (s("n2"), s("two"))]);
    let bytes = a.sync_pending(None).unwrap();
    let mut c = Collab::open(4);
    assert!(c.pull(&bytes));
    assert_eq!(texts(&c), vec![(s("n1"), s("one")), (s("n2"), s("two"))]);
    assert_eq!(place(&mut a, "three"), "n3");
}

#[test]
fn an_edit_in_progress_is_not_disturbed() {
    let mut a = open("b.canvas", Collab::open(1));
    let id = place(&mut a, "one");
    a.begin_edit(ratslate::target::Selected::Node(id));
    assert!(!a.can_pull());
    let mut b = Collab::open(2);
    b.set_node("z", &fields("z"));
    assert!(!a.pull_collab(&b.state()));
    assert_eq!(a.canvas.nodes.len(), 1);
    let mut c = App::new(None, Loaded::New, None);
    assert!(!c.can_pull());
    place(&mut c, "x");
    assert!(c.sync_pending(None).is_none());
    assert!(c.pending.is_empty());
}

#[test]
fn boxes_and_connectors_merge_back_as_they_were() {
    let mut a = App::new(None, Loaded::New, None);
    let x = place(&mut a, "text");
    let y = place(&mut a, "y");
    assert!(a.dispatch(Request::Connect { from: x.clone(), to: y }).is_ok());
    a.canvas.edges[0].from_anchor =
        Some(ratslate::model::CellAnchor { row: Some(1), col: None });
    let n = a.canvas.node(&x).unwrap();
    let back = node_from_fields(x.clone(), node_fields(n));
    assert_eq!(back.rect, n.rect);
    assert!(matches!(&back.kind, NodeKind::Text(t) if t == "text"));
    let e = &a.canvas.edges[0];
    let back = edge_from_fields(e.id.clone(), edge_fields(e));
    assert_eq!(back.from_anchor, e.from_anchor);
    assert_eq!(back.to_anchor, None);
    assert_eq!((back.from_end, back.to_end), (e.from_end, e.to_end));
    // A group's empty label reads as none, and sizes are kept in range.
    let mut f = fields("");
    f.kind = s("group");
    f.w = 0;
    f.h = 1 << 20;
    f.x = 1 << 40;
    let g = node_from_fields(s("g"), f);
    assert!(matches!(&g.kind, NodeKind::Group { label: None, .. }));
    assert_eq!((g.rect.x, g.rect.width, g.rect.height), (i32::MAX, 1, 65535));
    let mut f = fields("a.md");
    f.kind = s("file");
    f.subpath = Some(s("#h"));
    let g = node_from_fields(s("f"), f);
    assert!(matches!(&g.kind, NodeKind::File { path, subpath: Some(p) } if path == "a.md" && p == "#h"));
}

#[test]
fn the_merge_state_stays_in_step_with_the_board() {
    let mut a = open("b.canvas", Collab::open(1));
    let x = place(&mut a, "x");
    let y = place(&mut a, "y");
    let z = place(&mut a, "z");
    assert!(a.dispatch(Request::Connect { from: x.clone(), to: y.clone() }).is_ok());
    assert!(a.dispatch(Request::Connect { from: y.clone(), to: z.clone() }).is_ok());
    assert!(a.dispatch(Request::Connect { from: x.clone(), to: z.clone() }).is_ok());
    assert!(a.sync_pending(None).is_some());
    let state = |a: &App| {
        let c = a.collab.as_ref().unwrap();
        let mut edges: Vec<String> = c.snapshot_edges().into_iter().map(|(id, _)| id).collect();
        edges.sort();
        (texts(c), edges)
    };
    assert_eq!(state(&a).0, board(&a));
    assert_eq!(state(&a).1, vec![s("n4"), s("n5"), s("n6")]);
    // A box goes with the connectors that touch it, there too.
    assert!(a.dispatch(Request::Delete { id: y }).is_ok());
    assert!(a.dispatch(Request::SetText { id: z, text: s("zz") }).is_ok());
    assert!(a.sync_pending(None).is_some());
    assert_eq!(state(&a).0, board(&a));
    assert_eq!(state(&a).1, vec![s("n6")]);
    // Undo brings everything back at once.
    assert!(a.undo() && a.undo());
    assert!(a.sync_pending(None).is_some());
    assert_eq!(state(&a).0, board(&a));
    assert_eq!(state(&a).1, vec![s("n4"), s("n5"), s("n6")]);
}

#[test]
fn a_change_that_is_not_mirrored_yet_is_not_merged_over() {
    let mut a = open("b.canvas", Collab::open(1));
    let own = a.collab.as_ref().unwrap().state();
    let id = place(&mut a, "mine");
    assert!(!a.can_pull() && !a.pull_collab(&own));
    assert_eq!(board(&a), vec![(id.clone(), s("mine"))]);
    assert!(a.sync_pending(None).is_some());
    assert!(a.can_pull() && a.pull_collab(&own));
    assert_eq!(board(&a), vec![(id, s("mine"))]);
}

#[test]
fn only_what_can_be_read_is_merged() {
    let mut a = open("b.canvas", Collab::open((1 << 53) - 1));
    let x = place(&mut a, "é日本 \u{1F600}");
    let y = place(&mut a, "");
    assert!(a.dispatch(Request::Connect { from: x.clone(), to: y.clone() }).is_ok());
    assert!(a.dispatch(Request::SetColor { id: x.clone(), color: Some(s("#ff8800")) }).is_ok());
    assert!(a.sync_pending(None).is_some());
    assert!(a.dispatch(Request::Delete { id: y }).is_ok());
    assert!(a.dispatch(Request::SetText { id: x, text: s("é") }).is_ok());
    assert!(a.undo() && a.redo());
    let bytes = a.sync_pending(None).unwrap();
    assert!(is_readable(&bytes));
    let mut c = Collab::open(2);
    assert!(c.pull(&bytes));
    assert_eq!(texts(&c).len(), 1);
    // Cut short, or with a byte of its text that is no UTF-8.
    for n in 0..bytes.len() {
        assert!(!is_readable(&bytes[..n]));
    }
    let mut bad = bytes.clone();
    let at = bad.windows(2).position(|w| w == "é".as_bytes()).unwrap();
    bad[at] = 0xff;
    assert!(!is_readable(&bad));
    assert!(!c.pull(&bad));
    // Nothing at all; a client id of 54 bits; clocks past their end; a writer
    // without blocks.
    assert!(is_readable(&[0, 0]));
    assert_eq!(Collab::open(3).state(), vec![0, 0]);
    assert!(!is_readable(&[1, 1, 255, 255, 255, 255, 255, 255, 255, 31, 0, 0, 1, 0]));
    assert!(is_readable(&[1, 1, 255, 255, 255, 255, 255, 255, 255, 15, 0, 0, 1, 0]));
    assert!(!is_readable(&[1, 1, 5, 0, 0, 255, 255, 255, 255, 7, 0]));
    assert!(!is_readable(&[1, 0, 5, 0, 0]));
    // A story that does not start at its beginning, a gap, and deletions of
    // what is not there.
    assert!(!is_readable(&[1, 1, 5, 1, 0, 1, 0]));
    assert!(!is_readable(&[1, 1, 5, 0, 10, 1, 0]));
    assert!(!is_readable(&[0, 1, 5, 1, 0, 1]));
    assert!(!is_readable(&[1, 1, 5, 0, 0, 2, 1, 5, 1, 1, 2]));
    assert!(is_readable(&[1, 1, 5, 0, 0, 2, 1, 5, 1, 1, 1]));
}

/// A block for the entry "k" of the named map "m".
fn entry(kind: u8, rest: &[u8]) -> Vec<u8> {
    let mut v = vec![32 + kind, 1, 1, b'm', 1, b'k'];
    v.extend_from_slice(rest);
    v
}

/// A block for the field "f" under a change.
fn field(kind: u8, client: u8, clock: u8, rest: &[u8]) -> Vec<u8> {
    let mut v = vec![32 + kind, 0, client, clock, 1, b'f'];
    v.extend_from_slice(rest);
    v
}

/// A block in place of a change.
fn behind(kind: u8, client: u8, clock: u8, rest: &[u8]) -> Vec<u8> {
    let mut v = vec![128 + kind, client, clock];
    v.extend_from_slice(rest);
    v
}

/// A state of writers, each with its blocks, with nothing deleted.
fn state(writers: &[(u8, Vec<Vec<u8>>)]) -> Vec<u8> {
    let mut v = vec![writers.len() as u8];
    for (client, blocks) in writers {
        v.extend_from_slice(&[blocks.len() as u8, *client, 0]);
        for b in blocks {
            v.extend_from_slice(b);
        }
    }
    v.push(0);
    v
}

#[test]
fn a_state_is_whole_and_of_boards() {
    let (map, value, deleted) = (7, 8, 1);
    let fine = state(&[
        (9, vec![behind(map, 7, 0, &[1]), field(value, 9, 0, &[1, 126])]),
        (7, vec![entry(map, &[1]), field(value, 7, 0, &[1, 126]), behind(value, 7, 1, &[1, 127])]),
    ]);
    assert!(is_readable(&fine));
    // What refers to nothing that is there, or to itself by way of another.
    assert!(!is_readable(&state(&[(9, vec![behind(map, 7, 0, &[1])])])));
    assert!(!is_readable(&state(&[(7, vec![behind(map, 7, 0, &[1])])])));
    assert!(!is_readable(&state(&[
        (9, vec![behind(deleted, 7, 0, &[1])]),
        (7, vec![behind(deleted, 9, 0, &[1])]),
    ])));
    // Writers out of order.
    assert!(!is_readable(&state(&[(7, vec![vec![0, 1]]), (9, vec![vec![0, 1]])])));
    // A map in an entry, and a plain value for one.
    assert!(!is_readable(&state(&[(7, vec![entry(map, &[1]), field(map, 7, 0, &[1])])])));
    assert!(!is_readable(&state(&[(7, vec![entry(value, &[1, 126])])])));
    let deeper = vec![entry(map, &[1]), field(value, 7, 0, &[1, 126]), behind(map, 7, 1, &[1])];
    assert!(!is_readable(&state(&[(7, deeper)])));
    // A value in a value, and one in what was collected.
    let nested = vec![entry(map, &[1]), field(value, 7, 0, &[1, 126]), field(value, 7, 1, &[1, 126])];
    assert!(!is_readable(&state(&[(7, nested)])));
    assert!(!is_readable(&state(&[(7, vec![vec![0, 1], field(value, 7, 0, &[1, 126])])])));
    // Values of other kinds.
    assert!(!is_readable(&state(&[(7, vec![entry(map, &[1]), field(value, 7, 0, &[1, 117, 0])])])));
    let mut c = Collab::open(3);
    assert!(c.pull(&fine));
    assert!(is_readable(&c.state()));
}

#[test]
fn a_state_that_contradicts_the_document_is_refused() {
    let (map, value) = (7, 8);
    let one = state(&[(7, vec![entry(map, &[1]), field(value, 7, 0, &[1, 126])])]);
    let other = state(&[(7, vec![entry(map, &[1]), behind(map, 7, 0, &[1]), behind(map, 7, 1, &[1])])]);
    assert!(is_readable(&one) && is_readable(&other));
    let mut c = Collab::open(3);
    assert!(c.pull(&one));
    assert!(!c.pull(&other));
    // What was collected contradicts nothing.
    assert!(c.pull(&state(&[(7, vec![vec![0, 3]])])));
    // Nobody else writes under the document's own id.
    let mut mine = Collab::open(7);
    assert!(!mine.pull(&one));
    mine.set_node("a", &fields("x"));
    let own = mine.state();
    assert!(mine.pull(&own));
    assert_eq!(texts(&mine), vec![(s("a"), s("x"))]);
}

#[test]
fn writers_keep_reading_each_other() {
    let mut writers: Vec<Collab> = (0..4).map(|i| Collab::open(100 + 37 * i)).collect();
    let mut seed: u64 = 12345;
    let mut next = |n: u64| {
        seed = seed.wrapping_mul(6364136223846793005).wrapping_add(1442695040888963407);
        (seed >> 33) % n
    };
    let link = |a: &str, b: &str| EdgeFields {
        from: s(a),
        to: s(b),
        from_side: None,
        to_side: Some(s("top")),
        from_end: s("none"),
        to_end: s("arrow"),
        from_row: Some(1),
        from_col: None,
        to_row: None,
        to_col: Some(2),
        color: None,
        label: Some(s("l")),
    };
    for step in 0..400u64 {
        let w = next(4) as usize;
        let id = ["a", "b", "c", "d", "e"][next(5) as usize];
        match next(6) {
            0 | 1 => writers[w].set_node(id, &fields(["", "x", "long text é"][next(3) as usize])),
            2 => writers[w].remove_node(id),
            3 => writers[w].set_edge(id, &link(id, "a")),
            4 => writers[w].remove_edge(id),
            _ => {
                let from = next(4) as usize;
                let bytes = writers[from].state();
                assert!(writers[w].pull(&bytes), "step {step}");
            }
        }
        let bytes = writers[w].state();
        assert!(is_readable(&bytes), "step {step}");
        let mut fresh = Collab::open(1);
        assert!(fresh.pull(&bytes));
        assert_eq!(texts(&fresh), texts(&writers[w]));
        let edges = |c: &Collab| {
            let mut v: Vec<String> = c.snapshot_edges().into_iter().map(|(id, _)| id).collect();
            v.sort();
            v
        };
        assert_eq!(edges(&fresh), edges(&writers[w]));
        assert!(writers[w].pull(&bytes));
        assert_eq!(texts(&fresh), texts(&writers[w]));
        assert!(writers[w].changes_left() > 0);
    }
    // Once all have heard from all, all have the same.
    for _ in 0..2 {
        for w in 0..4 {
            for from in 0..4 {
                let bytes = writers[from].state();
                assert!(writers[w].pull(&bytes));
            }
        }
    }
    for w in 1..4 {
        assert_eq!(texts(&writers[w]), texts(&writers[0]));
    }
}

/// A number as the merge state writes it.
fn number(mut n: u64) -> Vec<u8> {
    let mut out = Vec::new();
    while n >= 128 {
        out.push((n % 128) as u8 | 128);
        n /= 128;
    }
    out.push(n as u8);
    out
}

/// A state of `n` writers with one change each: a collected one, or one that
/// takes the place of the change of the writer with the next lower id.
fn many_writers(n: u64, linked: bool) -> Vec<u8> {
    let mut out = number(n);
    for id in (1..=n).rev() {
        out.push(1);
        out.extend(number(id));
        out.push(0);
        if !linked {
            out.extend([0, 1]);
        } else if id == 1 {
            out.extend([39, 1, 5]);
            out.extend(b"nodes");
            out.extend([1, b'k', 1]);
        } else {
            out.push(0b1000_0111);
            out.extend(number(id - 1));
            out.extend([0, 1]);
        }
    }
    out.push(0);
    out
}

#[test]
fn a_state_has_a_limited_number_of_writers() {
    assert!(is_readable(&many_writers(0xfff, false)));
    assert!(!is_readable(&many_writers(0x1000, false)));
    let mut c = Collab::open(9_000);
    assert!(c.pull(&many_writers(0xfff, false)));
    assert!(!c.pull(&many_writers(0x1000, false)));
}

#[test]
fn writers_that_build_on_each_other_are_merged() {
    let bytes = many_writers(600, true);
    assert!(is_readable(&bytes));
    let mut c = Collab::open(9_000);
    assert!(c.pull(&bytes));
    let again = c.state();
    assert!(is_readable(&again));
    let mut d = Collab::open(9_001);
    assert!(d.pull(&again));
    assert_eq!(texts(&c), texts(&d));
}

#[test]
fn one_writer_builds_on_all_the_others() {
    let n: u64 = 0xfff;
    let mut bytes = number(n);
    bytes.extend(number(n - 1));
    bytes.extend(number(n));
    bytes.push(0);
    for id in 1..n {
        bytes.push(0b1000_0111);
        bytes.extend(number(id));
        bytes.extend([0, 1]);
    }
    for id in (1..n).rev() {
        bytes.push(1);
        bytes.extend(number(id));
        bytes.extend([0, 39, 1, 1, b'm', 2, b'0' + (id / 64) as u8, b'0' + (id % 64) as u8, 1]);
    }
    bytes.push(0);
    assert!(is_readable(&bytes));
    let mut c = Collab::open(9_000);
    assert!(c.pull(&bytes));
    assert!(is_readable(&c.state()));
}

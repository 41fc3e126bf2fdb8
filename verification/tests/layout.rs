use ratslate::layout::layered;
use ratslate::model::{Canvas, NodeKind};

fn spots(c: &Canvas) -> Vec<(String, i32, i32)> {
    let mut v = layered(c);
    v.sort();
    v
}

#[test]
fn layers_run_left_to_right() {
    let mut c = Canvas::default();
    let a = c.place_text(10, 20, None, None);
    let b = c.place_text(-3, 90, Some(5), Some(9));
    let d = c.place_text(50, 50, None, None);
    c.connect(a.clone(), b.clone());
    c.connect(b.clone(), d.clone());
    // Each layer starts past the widest box of the one before it.
    assert_eq!(
        spots(&c),
        vec![(a, -3, 20), (b, -3 + 16 + 6, 20), (d, -3 + 16 + 6 + 5 + 6, 20)]
    );
}

#[test]
fn boxes_of_a_layer_stack_and_loose_ones_go_below() {
    let mut c = Canvas::default();
    let a = c.place_text(0, 0, None, None);
    let b = c.place_text(0, 0, None, None);
    let d = c.place_text(0, 0, None, None);
    let e = c.place_text(0, 0, None, None);
    c.connect(a.clone(), b.clone());
    c.connect(a.clone(), d.clone());
    assert_eq!(spots(&c), vec![(a, 0, 0), (b, 22, 0), (d, 22, 5), (e, 0, 12)]);
}

#[test]
fn a_cycle_settles_and_groups_stay() {
    let mut c = Canvas::default();
    let a = c.place_text(0, 0, None, None);
    let b = c.place_text(0, 0, None, None);
    let g = c.place_text(7, 7, None, None);
    c.node_mut(&g).unwrap().kind =
        NodeKind::Group { label: None, background: None, background_style: None };
    c.connect(a.clone(), b.clone());
    c.connect(b.clone(), a.clone());
    let v = spots(&c);
    assert_eq!(v.len(), 2);
    assert!(v.iter().all(|(id, _, _)| *id != g));
    assert!(layered(&Canvas::default()).is_empty());
}

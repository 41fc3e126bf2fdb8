use ratslate::api::{run_batch, run_one, Decoded};
use ratslate::app::{App, Request, Response};
use ratslate::sync::Loaded;

fn s(t: &str) -> String {
    t.to_string()
}

#[test]
fn a_batch_is_applied_and_answered_in_order() {
    let mut app = App::new(None, Loaded::New, None);
    let reqs: Vec<(String, Decoded)> = vec![
        (s("place"), Ok(Request::Place { x: 1, y: 1, w: None, h: None })),
        (s("nonsense"), Err(s("unknown variant"))),
        (s("set_text"), Ok(Request::SetText { id: s("n1"), text: s("hi") })),
        (s("set_text"), Ok(Request::SetText { id: s("n2"), text: s("hi") })),
        (s("undo"), Ok(Request::Undo)),
        (s("state"), Ok(Request::State)),
    ];
    assert!(app.can_take_batch(reqs.len()));
    let out = run_batch(&mut app, reqs);
    let ids: Vec<&str> = out.iter().map(|e| e.id.as_str()).collect();
    assert_eq!(ids, vec!["place", "nonsense", "set_text", "set_text", "undo", "state"]);
    assert!(matches!(&out[0].outcome, Ok(Response::Placed { id }) if id == "n1"));
    assert!(matches!(&out[1].outcome, Err(e) if e == "unknown variant"));
    assert!(matches!(&out[2].outcome, Ok(Response::Done)));
    assert!(matches!(&out[3].outcome, Err(e) if e == "no such node: n2"));
    assert!(matches!(&out[4].outcome, Ok(Response::Undone { done: true })));
    assert!(matches!(&out[5].outcome, Ok(Response::State { board }) if board.nodes.len() == 1));
    assert!(!app.wants_save);
}

#[test]
fn the_counter_can_run_out() {
    let mut app = App::new(None, Loaded::New, None);
    app.canvas.set_next_id(u64::MAX);
    assert!(!app.can_dispatch(&Request::Place { x: 0, y: 0, w: None, h: None }));
    assert!(app.can_dispatch(&Request::State));
    assert!(!app.can_take_batch(1));
    let r = run_one(&mut app, s("state"), Ok(Request::State));
    assert!(r.outcome.is_ok());
}

use ratslate::session::{
    board_paths, clone_name, command, is_outline, tab_step, Command, TabAction, TabStep,
};
use ratslate::app::App;
use ratslate::sync::Loaded;

fn args(list: &[&str]) -> Vec<String> {
    list.iter().map(|s| s.to_string()).collect()
}

#[test]
fn boards_are_what_is_no_flag() {
    let a = args(&["x.canvas", "--api", "{}", "--other", "y.canvas"]);
    assert_eq!(board_paths(&a), args(&["x.canvas", "y.canvas"]));
    assert!(board_paths(&args(&["--api"])).is_empty());
    assert_eq!(board_paths(&args(&["-", "--api", "--api", "z"])), args(&["-", "z"]));
}

#[test]
fn flags_say_what_to_do() {
    assert!(matches!(command(&args(&["a", "--schema", "--render"])), Command::Schema));
    assert!(matches!(command(&args(&["--api", "{}", "--render"])), Command::Render));
    assert!(matches!(command(&args(&["--api", "{}"])), Command::Api(Some(j)) if j == "{}"));
    assert!(matches!(command(&args(&["a", "--api"])), Command::Api(None)));
    assert!(matches!(command(&args(&["a", "b"])), Command::Edit));
}

#[test]
fn tabs_go_round() {
    assert_eq!(tab_step(3, 2, TabAction::Next, true), TabStep::Show(0));
    assert_eq!(tab_step(3, 0, TabAction::Prev, true), TabStep::Show(2));
    assert_eq!(tab_step(3, 1, TabAction::Next, true), TabStep::Show(2));
    assert_eq!(tab_step(3, 1, TabAction::Prev, true), TabStep::Show(0));
    assert_eq!(tab_step(1, 0, TabAction::Next, true), TabStep::OnlyOne);
    assert_eq!(tab_step(2, 0, TabAction::Goto(1), true), TabStep::Show(1));
    assert_eq!(tab_step(2, 0, TabAction::Goto(0), true), TabStep::Stay);
    assert_eq!(tab_step(2, 0, TabAction::Goto(2), true), TabStep::Stay);
    assert_eq!(tab_step(2, 0, TabAction::New, true), TabStep::Clone);
    assert_eq!(tab_step(2, 0, TabAction::New, false), TabStep::NoFile);
}

#[test]
fn a_clone_is_numbered_and_the_view_stays_put() {
    assert_eq!(clone_name("plan", 12, "canvas"), "plan-12.canvas");
    let mut app = App::new(None, Loaded::New, None);
    app.take_view((3, -4));
    app.say("hello".to_string());
    assert_eq!(app.camera, (3, -4));
    assert_eq!(app.status, "hello");
}

#[test]
fn a_name_says_what_a_file_is() {
    assert!(is_outline("plan.md") && is_outline("a/b.c/x.md"));
    for path in ["", ".md", "a/.md", "plan.canvas", "plan.md.canvas", "md", "x.MD"] {
        assert!(!is_outline(path));
    }
}

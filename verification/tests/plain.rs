use ratslate::model::Canvas;
use ratslate::plain::{extent, tidy};

fn rows(list: &[&str]) -> Vec<String> {
    list.iter().map(|r| r.to_string()).collect()
}

#[test]
fn a_drawing_loses_the_space_around_it() {
    assert_eq!(tidy(&rows(&["", "   ", "    a  ", "", "  b c ", "   ", ""])), "  a\n\nb c");
    assert_eq!(tidy(&rows(&["", "  "])), "");
    assert_eq!(tidy(&rows(&["x"])), "x");
}

#[test]
fn the_whole_board_is_in_view() {
    let mut c = Canvas::default();
    assert_eq!(extent(&c), ((-4, -4), 8, 8));
    c.place_text(10, -20, Some(5), Some(3));
    c.place_text(-7, 30, Some(16), Some(4));
    assert_eq!(extent(&c), ((-11, -24), 30, 62));
}

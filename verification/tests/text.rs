use ratslate::text::{decimal_of, is_whitespace, join, lines_of, same_str, split_chars, to_chars};

#[test]
fn lines_drop_the_last_newline_and_carriage_returns() {
    assert_eq!(lines_of("a\nb\n"), vec!["a".to_string(), "b".to_string()]);
    assert_eq!(lines_of("a\r\n\nb"), vec!["a".to_string(), String::new(), "b".to_string()]);
    assert!(lines_of("").is_empty());
}

#[test]
fn join_puts_the_separator_between() {
    assert_eq!(join(&vec!["a".to_string(), "b".to_string()], '\n'), "a\nb");
    assert_eq!(join(&vec![], '|'), "");
}

#[test]
fn split_keeps_empty_pieces() {
    let v = to_chars("a||b");
    let pieces = split_chars(&v, 0, v.len(), '|');
    let pieces: Vec<String> = pieces.into_iter().map(|p| p.into_iter().collect()).collect();
    assert_eq!(pieces, vec!["a", "", "b"]);
}

#[test]
fn decimals_and_spaces() {
    let d: String = decimal_of(10203).into_iter().collect();
    assert_eq!(d, "10203");
    assert!(is_whitespace('\u{3000}'));
    assert!(!is_whitespace('x'));
    assert!(same_str("ab", "ab"));
    assert!(!same_str("ab", "ac"));
}

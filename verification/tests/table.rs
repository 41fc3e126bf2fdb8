use ratslate::table::{
    blank, cell_lines, col_center_frac, col_widths, decode_break, display_width, encode_break,
    parse, render_size, row_center_frac, row_height, Table,
};

fn table(rows: &[&[&str]]) -> Table {
    rows.iter().map(|r| r.iter().map(|c| c.to_string()).collect()).collect()
}

#[test]
fn a_table_reads_back_as_it_was_written() {
    let t = table(&[&["Name", "Qty"], &["a", "1"], &["", "x<br>y"]]);
    let text = ratslate::table::format(&t);
    assert_eq!(text, "| Name | Qty |\n| --- | --- |\n| a | 1 |\n|  | x<br>y |");
    assert_eq!(parse(&text), Some(t));
}

#[test]
fn rows_are_padded_and_cut_to_the_header() {
    let t = parse("a | b\n:--|--:\n1\n1|2|3\n\n").unwrap();
    assert_eq!(t, table(&[&["a", "b"], &["1", ""], &["1", "2"], &["", ""]]));
}

#[test]
fn prose_is_no_table() {
    assert_eq!(parse("just text"), None);
    assert_eq!(parse("a | b\nnot a rule"), None);
    assert_eq!(parse("||\n---"), None);
    assert_eq!(parse("a\n\nb"), None);
}

#[test]
fn a_blank_table_is_a_header_and_a_row() {
    assert_eq!(blank(), table(&[&[""], &[""]]));
    // It reads back, and so does any table with a bare header.
    assert_eq!(parse(&ratslate::table::format(&blank())), Some(blank()));
    assert_eq!(parse("| |\n|-|"), Some(table(&[&[""]])));
    assert_eq!(parse("\n---"), None);
    assert_eq!(parse("|\n---"), None);
}

#[test]
fn breaks_in_cells() {
    assert_eq!(cell_lines("a<br>b"), vec!["a", "b"]);
    assert_eq!(cell_lines(""), vec![""]);
    assert_eq!(encode_break("a\nb\n"), "a<br>b<br>");
    assert_eq!(decode_break("a<br>b<br>"), "a\nb\n");
    assert_eq!(decode_break(&encode_break("x\n\ny")), "x\n\ny");
    assert_eq!(encode_break(&decode_break("x<br>y")), "x<br>y");
    assert_eq!(row_height(&["a".to_string(), "a<br>b<br>c".to_string()]), 3);
    assert_eq!(row_height(&[]), 1);
}

#[test]
fn wide_glyphs_take_two_cells() {
    assert_eq!(display_width("abc"), 3);
    assert_eq!(display_width("日本"), 4);
    assert_eq!(display_width(""), 0);
}

#[test]
fn columns_are_as_wide_as_their_widest_line() {
    let t = table(&[&["a", "bbbb"], &["ab<br>abcde", ""]]);
    assert_eq!(col_widths(&t), vec![5, 4]);
    assert_eq!(col_widths(&table(&[&[""], &["x"]])), vec![3]);
}

#[test]
fn a_box_shows_every_cell_in_full() {
    assert_eq!(render_size(&table(&[&["a", "bbbb"], &["", ""]])), (14, 5));
    assert_eq!(render_size(&table(&[&["a<br>b"]])), (7, 4));
    assert_eq!(render_size(&vec![]), (3, 4));
}

#[test]
fn centers_of_columns_and_rows() {
    let t = table(&[&["a", "bbbb"], &["", ""]]);
    let c = col_center_frac(&t, 0, 14).unwrap();
    assert_eq!((c.num, c.den), (7, 28));
    let c = col_center_frac(&t, 1, 14).unwrap();
    assert_eq!((c.num, c.den), (20, 28));
    assert!(col_center_frac(&t, 2, 14).is_none());
    let c = col_center_frac(&t, 0, 1).unwrap();
    assert_eq!((c.num, c.den), (1, 2));
    let r = row_center_frac(&t, 0, 5).unwrap();
    assert_eq!((r.num, r.den), (3, 10));
    let r = row_center_frac(&t, 1, 5).unwrap();
    assert_eq!((r.num, r.den), (7, 10));
    assert!(row_center_frac(&t, 2, 5).is_none());
    // A box smaller than its table: the far end of it.
    let c = col_center_frac(&t, 1, 5).unwrap();
    assert_eq!((c.num, c.den), (10, 10));
}

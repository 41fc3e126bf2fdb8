//! A table box is a text box whose content happens to be a GFM markdown
//! table. Parsing and formatting live here; the grid editor and the grid
//! renderer both work on the rows of cells that this produces, never on the
//! raw markdown.

use ratatui::buffer::CellWidth;
use vstd::prelude::*;

use crate::text::{
    find_trimmed, joined, lines, lines_of, push_repeated, split, split_chars, string_of, to_chars,
    trim, views,
};

verus! {

/// A row is a header if it is the first; everything else is data. The
/// separator row is not part of this: `format` writes it anew.
pub type Table = Vec<Vec<String>>;

/// A table as rows of cell texts.
pub type Cells = Seq<Seq<Seq<char>>>;

/// The narrowest a column is ever allowed to render: an empty column of
/// width 0 would have nothing to click on.
pub const MIN_COL_WIDTH: usize = 3;

/// The cell texts of a table.
pub open spec fn cells(t: Seq<Vec<String>>) -> Cells {
    Seq::new(t.len(), |i: int| views(t[i]@))
}

/// A line without the bars that may stand at its ends.
pub open spec fn without_bars(line: Seq<char>) -> Seq<char> {
    let s = trim(line);
    let a = if s.len() > 0 && s[0] == '|' {
        s.skip(1)
    } else {
        s
    };
    if a.len() > 0 && a.last() == '|' {
        a.drop_last()
    } else {
        a
    }
}

/// The cell texts of a row that may be missing.
pub open spec fn row_view(row: Option<Vec<String>>) -> Option<Seq<Seq<char>>> {
    match row {
        Some(cells) => Some(views(cells@)),
        None => None,
    }
}

/// The cell texts of a table that may be missing.
pub open spec fn table_view(table: Option<Table>) -> Option<Cells> {
    match table {
        Some(t) => Some(cells(t@)),
        None => None,
    }
}

/// Each piece trimmed.
pub open spec fn trimmed(pieces: Seq<Seq<char>>) -> Seq<Seq<char>> {
    Seq::new(pieces.len(), |i: int| trim(pieces[i]))
}

/// Whether a line has a bar at both ends, and room for a cell between them.
pub open spec fn is_barred(line: Seq<char>) -> bool {
    let s = trim(line);
    s.len() > 2 && s[0] == '|' && s.last() == '|'
}

/// The cells of a line: one empty cell where there is but space between its
/// bars, none where there are no such bars either.
pub open spec fn row_of(line: Seq<char>) -> Option<Seq<Seq<char>>> {
    let inner = without_bars(line);
    if trim(inner).len() == 0 && !is_barred(line) {
        None
    } else {
        Some(trimmed(split(inner, '|')))
    }
}

/// Whether a character can stand in a separator row.
pub open spec fn is_rule_char(c: char) -> bool {
    c == '-' || c == ':' || c == ' ' || c == '|'
}

/// Whether a line is the separator under a table's header.
pub open spec fn is_rule(line: Seq<char>) -> bool {
    let s = trim(line);
    s.len() > 0 && forall|i: int| 0 <= i < s.len() ==> is_rule_char(#[trigger] s[i])
}

/// A row cut or padded with empty cells to `cols` cells.
pub open spec fn fitted(row: Option<Seq<Seq<char>>>, cols: nat) -> Seq<Seq<char>> {
    Seq::new(
        cols,
        |i: int|
            if row is Some && i < row->0.len() {
                row->0[i]
            } else {
                Seq::empty()
            },
    )
}

/// The table that lines of text are: a header row, a separator row, then
/// the data rows, each as wide as the header.
pub open spec fn table_of_lines(ls: Seq<Seq<char>>) -> Option<Cells> {
    if ls.len() < 2 || row_of(ls[0]) is None || !is_rule(ls[1]) {
        None
    } else {
        let header = row_of(ls[0])->0;
        Some(
            seq![header] + Seq::new(
                (ls.len() - 2) as nat,
                |i: int| fitted(row_of(ls[i + 2]), header.len()),
            ),
        )
    }
}

/// The table that a text is, if it is one.
pub open spec fn table_of(text: Seq<char>) -> Option<Cells> {
    table_of_lines(lines(text))
}

/// A row as a line: a bar, then each cell between spaces and with a bar
/// after it.
pub open spec fn row_line(row: Seq<Seq<char>>) -> Seq<char>
    decreases row.len(),
{
    if row.len() == 0 {
        seq!['|']
    } else {
        row_line(row.drop_last()).push(' ') + row.last() + seq![' ', '|']
    }
}

/// Three dashes for each of `n` columns.
pub open spec fn dashes(n: nat) -> Seq<Seq<char>> {
    Seq::new(n, |i: int| seq!['-', '-', '-'])
}

/// The lines of a table: the header, the separator, the data rows.
pub open spec fn table_lines(t: Cells) -> Seq<Seq<char>>
    decreases t.len(),
{
    if t.len() == 0 {
        Seq::empty()
    } else if t.len() == 1 {
        seq![row_line(t[0]), row_line(dashes(t[0].len()))]
    } else {
        table_lines(t.drop_last()).push(row_line(t.last()))
    }
}

/// A table as text.
pub open spec fn formatted(t: Cells) -> Seq<char> {
    joined(table_lines(t), '\n')
}

/// Whether two tables hold the same cells can be asked of their rows: a
/// table is rectangular where every row is as wide as the header.
pub open spec fn rectangular(t: Cells) -> bool {
    forall|i: int| 0 <= i < t.len() ==> (#[trigger] t[i]).len() == t[0].len()
}

/// The cells of a line.
fn split_row(line: &str) -> (r: Option<Vec<String>>)
    ensures
        row_view(r) == row_of(line@),
{
    let v: Vec<char> = to_chars(line);
    let n: usize = v.len();
    proof {
        assert(v@.subrange(0, n as int) =~= line@);
    }
    let (a0, b0) = find_trimmed(&v, 0, n);
    let ghost s = trim(line@);
    let a: usize = if a0 < b0 && v[a0] == '|' {
        a0 + 1
    } else {
        a0
    };
    let b: usize = if a < b0 && v[b0 - 1] == '|' {
        b0 - 1
    } else {
        b0
    };
    proof {
        assert(s == v@.subrange(a0 as int, b0 as int));
        let rest = if s.len() > 0 && s[0] == '|' {
            s.skip(1)
        } else {
            s
        };
        assert(rest =~= v@.subrange(a as int, b0 as int));
        assert(without_bars(line@) =~= v@.subrange(a as int, b as int));
    }
    let (c, d) = find_trimmed(&v, a, b);
    let barred: bool = b0 - a0 > 2 && v[a0] == '|' && v[b0 - 1] == '|';
    if c == d && !barred {
        return None;
    }
    let pieces: Vec<Vec<char>> = split_chars(&v, a, b, '|');
    let mut out: Vec<String> = Vec::new();
    let mut i: usize = 0;
    let ghost parts = split(without_bars(line@), '|');
    while i < pieces.len()
        invariant
            i <= pieces@.len(),
            parts.len() == pieces@.len(),
            forall|k: int| 0 <= k < parts.len() ==> #[trigger] parts[k] == pieces@[k]@,
            out@.len() == i,
            forall|k: int| 0 <= k < i ==> (#[trigger] out@[k])@ == trim(parts[k]),
        decreases pieces@.len() - i,
    {
        let m: usize = pieces[i].len();
        let (e, f) = find_trimmed(&pieces[i], 0, m);
        let cell: String = string_of(&pieces[i], e, f);
        proof {
            assert(pieces@[i as int]@.subrange(0, m as int) =~= parts[i as int]);
        }
        out.push(cell);
        i += 1;
    }
    proof {
        assert(views(out@) =~= trimmed(parts));
    }
    Some(out)
}

/// Only `-`, `:`, spaces and `|`: the one thing that marks a text as a
/// table rather than lines that happen to hold a few bars.
fn is_separator_row(line: &str) -> (r: bool)
    ensures
        r == is_rule(line@),
{
    let v: Vec<char> = to_chars(line);
    let n: usize = v.len();
    proof {
        assert(v@.subrange(0, n as int) =~= line@);
    }
    let (a, b) = find_trimmed(&v, 0, n);
    let ghost s = trim(line@);
    let mut i: usize = a;
    while i < b
        invariant
            a <= i <= b <= v@.len(),
            s == v@.subrange(a as int, b as int),
            s == trim(line@),
            forall|k: int| 0 <= k < i - a ==> is_rule_char(#[trigger] s[k]),
        decreases b - i,
    {
        let c: char = v[i];
        if !(c == '-' || c == ':' || c == ' ' || c == '|') {
            proof {
                assert(!is_rule_char(s[i - a]));
            }
            return false;
        }
        i += 1;
    }
    a < b
}

/// A row cut or padded to `cols` cells.
fn fit(row: Option<Vec<String>>, cols: usize) -> (r: Vec<String>)
    ensures
        views(r@) == fitted(row_view(row), cols as nat),
{
    let ghost given = row_view(row);
    let cells: Vec<String> = match row {
        Some(cells) => cells,
        None => Vec::new(),
    };
    let mut out: Vec<String> = Vec::new();
    while out.len() < cols
        invariant
            out@.len() <= cols,
            forall|k: int|
                0 <= k < out@.len() ==> (#[trigger] out@[k])@ == if k < cells@.len() {
                    cells@[k]@
                } else {
                    Seq::empty()
                },
        decreases cols - out@.len(),
    {
        let i: usize = out.len();
        if i < cells.len() {
            out.push(cells[i].clone());
        } else {
            let empty: String = String::new();
            proof {
                assert(empty@ =~= Seq::empty());
            }
            out.push(empty);
        }
    }
    proof {
        assert(views(out@) =~= fitted(given, cols as nat));
    }
    out
}

/// Parses `text` as a GFM table: a header row, a separator row, then the
/// data rows, every one padded or cut to the header's own column count.
/// `None` for anything else.
pub fn parse(text: &str) -> (r: Option<Table>)
    ensures
        table_view(r) == table_of(text@),
{
    let ls: Vec<String> = lines_of(text);
    let ghost given = views(ls@);
    if ls.len() < 2 {
        return None;
    }
    let header: Vec<String> = match split_row(ls[0].as_str()) {
        Some(row) => row,
        None => {
            return None;
        },
    };
    if !is_separator_row(ls[1].as_str()) {
        return None;
    }
    let cols: usize = header.len();
    let ghost top = views(header@);
    let mut rows: Table = Vec::new();
    rows.push(header);
    let mut i: usize = 2;
    while i < ls.len()
        invariant
            2 <= i <= ls@.len(),
            given == views(ls@),
            cols == top.len(),
            rows@.len() == i - 1,
            views(rows@[0]@) == top,
            forall|k: int|
                1 <= k < rows@.len() ==> views((#[trigger] rows@[k])@) == fitted(
                    row_of(given[k + 1]),
                    cols as nat,
                ),
        decreases ls@.len() - i,
    {
        let row: Vec<String> = fit(split_row(ls[i].as_str()), cols);
        rows.push(row);
        i += 1;
    }
    proof {
        assert(cells(rows@) =~= table_of(text@)->0);
    }
    Some(rows)
}

/// Appends a row as a line.
fn push_row(out: &mut String, row: &Vec<String>)
    ensures
        final(out)@ == old(out)@ + row_line(views(row@)),
{
    out.push('|');
    let ghost before = old(out)@;
    let mut i: usize = 0;
    proof {
        assert(views(row@).take(0) =~= Seq::empty());
        assert(out@ =~= before + row_line(views(row@).take(0)));
    }
    while i < row.len()
        invariant
            i <= row@.len(),
            out@ == before + row_line(views(row@).take(i as int)),
        decreases row@.len() - i,
    {
        out.push(' ');
        out.append(row[i].as_str());
        out.push(' ');
        out.push('|');
        proof {
            let upto = views(row@).take(i + 1);
            assert(upto.drop_last() =~= views(row@).take(i as int));
            assert(upto.last() == row@[i as int]@);
            assert(out@ =~= before + row_line(upto));
        }
        i += 1;
    }
    proof {
        assert(views(row@).take(row@.len() as int) =~= views(row@));
    }
}

/// The separator under a header of `cols` columns.
fn rule_row(cols: usize) -> (r: Vec<String>)
    ensures
        views(r@) == dashes(cols as nat),
{
    let mut out: Vec<String> = Vec::new();
    while out.len() < cols
        invariant
            out@.len() <= cols,
            forall|k: int| 0 <= k < out@.len() ==> (#[trigger] out@[k])@ == seq!['-', '-', '-'],
        decreases cols - out@.len(),
    {
        let mut cell: String = String::new();
        push_repeated(&mut cell, '-', 3);
        proof {
            assert(cell@ =~= seq!['-', '-', '-']);
        }
        out.push(cell);
    }
    proof {
        assert(views(out@) =~= dashes(cols as nat));
    }
    out
}

/// The inverse of `parse`. Writes a plain `---` separator, with no marks
/// for alignment.
pub fn format(table: &Table) -> (r: String)
    ensures
        r@ == formatted(cells(table@)),
{
    let mut out: String = String::new();
    let ghost t = cells(table@);
    if table.len() == 0 {
        proof {
            assert(out@ =~= formatted(t));
        }
        return out;
    }
    push_row(&mut out, &table[0]);
    out.push('\n');
    let rule: Vec<String> = rule_row(table[0].len());
    push_row(&mut out, &rule);
    proof {
        let two = seq![row_line(t[0]), row_line(dashes(t[0].len()))];
        assert(table_lines(t.take(1)) == two);
        assert(two.drop_last() =~= seq![row_line(t[0])]);
        assert(joined(two.drop_last(), '\n') == row_line(t[0]));
        assert(out@ =~= joined(two, '\n'));
    }
    let mut i: usize = 1;
    while i < table.len()
        invariant
            1 <= i <= table@.len(),
            t == cells(table@),
            table_lines(t.take(i as int)).len() > 0,
            out@ == joined(table_lines(t.take(i as int)), '\n'),
        decreases table@.len() - i,
    {
        out.push('\n');
        push_row(&mut out, &table[i]);
        proof {
            let upto = t.take(i + 1);
            assert(upto.drop_last() =~= t.take(i as int));
            let ls = table_lines(upto);
            assert(ls.drop_last() =~= table_lines(t.take(i as int)));
            assert(out@ =~= joined(ls, '\n'));
        }
        i += 1;
    }
    proof {
        assert(t.take(t.len() as int) =~= t);
    }
    out
}

/// An empty starting point: one header cell and one data row under it.
pub fn blank() -> (r: Table)
    ensures
        cells(r@) == seq![seq![Seq::<char>::empty()], seq![Seq::<char>::empty()]],
{
    let mut header: Vec<String> = Vec::new();
    header.push(String::new());
    let mut row: Vec<String> = Vec::new();
    row.push(String::new());
    proof {
        assert(header@[0]@ =~= Seq::empty());
        assert(row@[0]@ =~= Seq::empty());
        assert(views(header@) =~= seq![Seq::<char>::empty()]);
        assert(views(row@) =~= seq![Seq::<char>::empty()]);
    }
    let mut out: Table = Vec::new();
    out.push(header);
    out.push(row);
    proof {
        assert(cells(out@) =~= seq![seq![Seq::<char>::empty()], seq![Seq::<char>::empty()]]);
    }
    out
}

/// The mark for a line break in a cell. A table row cannot hold a newline,
/// so a cell spells one the way GFM renderers read one.
pub open spec fn cell_break() -> Seq<char> {
    seq!['<', 'b', 'r', '>']
}

/// Whether `s` begins with a line break mark.
pub open spec fn starts_break(s: Seq<char>) -> bool {
    s.len() >= 4 && s.take(4) == cell_break()
}

/// The pieces of a cell between its line break marks.
pub open spec fn break_pieces(s: Seq<char>) -> Seq<Seq<char>>
    decreases s.len(),
{
    if s.len() == 0 {
        seq![Seq::empty()]
    } else if starts_break(s) {
        seq![Seq::<char>::empty()] + break_pieces(s.skip(4))
    } else {
        let rest = break_pieces(s.skip(1));
        rest.update(0, seq![s[0]] + rest[0])
    }
}

/// A cell with a newline for each line break mark.
pub open spec fn decoded(s: Seq<char>) -> Seq<char>
    decreases s.len(),
{
    if s.len() == 0 {
        Seq::empty()
    } else if starts_break(s) {
        seq!['\n'] + decoded(s.skip(4))
    } else {
        seq![s[0]] + decoded(s.skip(1))
    }
}

/// A text with a line break mark for each newline.
pub open spec fn encoded(s: Seq<char>) -> Seq<char>
    decreases s.len(),
{
    if s.len() == 0 {
        Seq::empty()
    } else if s[0] == '\n' {
        cell_break() + encoded(s.skip(1))
    } else {
        seq![s[0]] + encoded(s.skip(1))
    }
}

pub proof fn lemma_break_pieces_nonempty(s: Seq<char>)
    ensures
        1 <= break_pieces(s).len() <= s.len() + 1,
    decreases s.len(),
{
    if s.len() > 0 {
        if starts_break(s) {
            lemma_break_pieces_nonempty(s.skip(4));
        } else {
            lemma_break_pieces_nonempty(s.skip(1));
        }
    }
}

/// Whether a line break mark stands at `i`.
fn break_at(v: &Vec<char>, i: usize) -> (r: bool)
    requires
        i <= v@.len(),
    ensures
        r == starts_break(v@.skip(i as int)),
{
    let n: usize = v.len();
    let ghost rest = v@.skip(i as int);
    if n - i < 4 {
        return false;
    }
    let r: bool = v[i] == '<' && v[i + 1] == 'b' && v[i + 2] == 'r' && v[i + 3] == '>';
    proof {
        let head = rest.take(4);
        assert(head[0] == v@[i as int] && head[1] == v@[i + 1] && head[2] == v@[i + 2] && head[3]
            == v@[i + 3]);
        if r {
            assert(head =~= cell_break());
        }
    }
    r
}

/// A cell's own display lines. Everything that measures or draws a cell
/// works off these, so none of it can disagree on where a line breaks.
pub fn cell_lines(s: &str) -> (r: Vec<String>)
    ensures
        views(r@) == break_pieces(s@),
{
    let v: Vec<char> = to_chars(s);
    let mut out: Vec<String> = Vec::new();
    let mut piece: String = String::new();
    let mut i: usize = 0;
    proof {
        assert(v@.skip(0) =~= s@);
        lemma_break_pieces_nonempty(s@);
        let rest = break_pieces(s@);
        assert(piece@ + rest[0] =~= rest[0]);
        assert(views(out@) + rest.update(0, rest[0]) =~= rest);
    }
    while i < v.len()
        invariant
            i <= v@.len(),
            v@ == s@,
            break_pieces(v@.skip(i as int)).len() >= 1,
            break_pieces(s@) == views(out@) + break_pieces(v@.skip(i as int)).update(
                0,
                piece@ + break_pieces(v@.skip(i as int))[0],
            ),
        decreases v@.len() - i,
    {
        let ghost rest = v@.skip(i as int);
        let ghost done = views(out@);
        let ghost open = piece@;
        if break_at(&v, i) {
            let full: String = piece;
            piece = String::new();
            out.push(full);
            i += 4;
            proof {
                let next = v@.skip(i as int);
                assert(rest.skip(4) =~= next);
                lemma_break_pieces_nonempty(next);
                assert(views(out@) =~= done.push(open));
                assert(piece@ + break_pieces(next)[0] =~= break_pieces(next)[0]);
                assert(open + Seq::<char>::empty() =~= open);
                assert(done + break_pieces(rest).update(0, open + break_pieces(rest)[0])
                    =~= views(out@) + break_pieces(next).update(0, break_pieces(next)[0]));
            }
        } else {
            piece.push(v[i]);
            i += 1;
            proof {
                let next = v@.skip(i as int);
                assert(rest.skip(1) =~= next);
                lemma_break_pieces_nonempty(next);
                assert(open + (seq![rest[0]] + break_pieces(next)[0]) =~= piece@ + break_pieces(
                    next,
                )[0]);
                assert(break_pieces(rest).update(0, open + break_pieces(rest)[0])
                    =~= break_pieces(next).update(0, piece@ + break_pieces(next)[0]));
            }
        }
    }
    let ghost done = views(out@);
    let ghost open = piece@;
    out.push(piece);
    proof {
        assert(v@.skip(i as int) =~= Seq::empty());
        assert(open + Seq::<char>::empty() =~= open);
        assert(views(out@) =~= done.push(open));
        assert(views(out@) =~= break_pieces(s@));
    }
    out
}

/// While a cell is open its text has real newlines. This is the one place
/// that turns them into the marks that a cell is stored with.
pub fn encode_break(s: &str) -> (r: String)
    ensures
        r@ == encoded(s@),
{
    let v: Vec<char> = to_chars(s);
    let mut out: String = String::new();
    let mut i: usize = 0;
    proof {
        assert(v@.skip(0) =~= s@);
        assert(out@ + encoded(s@) =~= encoded(s@));
    }
    while i < v.len()
        invariant
            i <= v@.len(),
            encoded(s@) == out@ + encoded(v@.skip(i as int)),
        decreases v@.len() - i,
    {
        let ghost before = out@;
        let ghost rest = v@.skip(i as int);
        if v[i] == '\n' {
            out.push('<');
            out.push('b');
            out.push('r');
            out.push('>');
            proof {
                assert(out@ =~= before + cell_break());
            }
        } else {
            out.push(v[i]);
        }
        i += 1;
        proof {
            assert(rest.skip(1) =~= v@.skip(i as int));
            assert(before + encoded(rest) =~= out@ + encoded(v@.skip(i as int)));
        }
    }
    proof {
        assert(v@.skip(i as int) =~= Seq::empty());
        assert(out@ =~= encoded(s@));
    }
    out
}

/// The inverse: a stored cell's marks become real newlines when its text is
/// loaded to type into.
pub fn decode_break(s: &str) -> (r: String)
    ensures
        r@ == decoded(s@),
{
    let v: Vec<char> = to_chars(s);
    let mut out: String = String::new();
    let mut i: usize = 0;
    proof {
        assert(v@.skip(0) =~= s@);
        assert(out@ + decoded(s@) =~= decoded(s@));
    }
    while i < v.len()
        invariant
            i <= v@.len(),
            decoded(s@) == out@ + decoded(v@.skip(i as int)),
        decreases v@.len() - i,
    {
        let ghost before = out@;
        let ghost rest = v@.skip(i as int);
        if break_at(&v, i) {
            out.push('\n');
            i += 4;
            proof {
                assert(rest.skip(4) =~= v@.skip(i as int));
            }
        } else {
            out.push(v[i]);
            i += 1;
            proof {
                assert(rest.skip(1) =~= v@.skip(i as int));
            }
        }
        proof {
            assert(before + decoded(rest) =~= out@ + decoded(v@.skip(i as int)));
        }
    }
    proof {
        assert(v@.skip(i as int) =~= Seq::empty());
        assert(out@ =~= decoded(s@));
    }
    out
}

/// What `CellWidth::cell_width` of ratatui gives for a string: its width in
/// terminal cells.
pub uninterp spec fn cell_columns(s: Seq<char>) -> u16;

/// Whether a string is one ASCII control character.
pub open spec fn is_control(s: Seq<char>) -> bool {
    s.len() == 1 && (s[0] as u32 <= 0x1f || s[0] as u32 == 0x7f)
}

/// Whether every character of a string is a printable ASCII character.
pub open spec fn is_printable(s: Seq<char>) -> bool {
    forall|i: int| 0 <= i < s.len() ==> 0x20 <= (#[trigger] s[i]) as u32 <= 0x7e
}

/// Calls `CellWidth::cell_width` of ratatui for `str`. The width is a
/// function of the text alone, and a printable ASCII character takes one
/// cell. A string that is a single control character is left out: a debug
/// build of ratatui asserts that none is passed.
#[verifier::external_body]
fn measure(s: &str) -> (r: u16)
    requires
        !is_control(s@),
    ensures
        r == cell_columns(s@),
        is_printable(s@) && s@.len() <= u16::MAX ==> r == s@.len(),
{
    s.cell_width()
}

/// The width of a string in terminal cells. Wide glyphs count as two; a
/// lone control character counts as one.
pub open spec fn text_width(s: Seq<char>) -> nat {
    if is_control(s) {
        1
    } else {
        cell_columns(s) as nat
    }
}

/// A string's width in terminal cells: CJK and other wide glyphs count as
/// two. Everything that lays out the grid measures with this.
pub fn display_width(s: &str) -> (r: usize)
    ensures
        r == text_width(s@),
        is_printable(s@) && s@.len() <= u16::MAX ==> r == s@.len(),
        r <= u16::MAX,
{
    let v: Vec<char> = to_chars(s);
    if v.len() == 1 && (v[0] as u32 <= 0x1f || v[0] as u32 == 0x7f) {
        1
    } else {
        measure(s) as usize
    }
}

/// The larger of two numbers.
pub open spec fn larger(a: nat, b: nat) -> nat {
    if a < b {
        b
    } else {
        a
    }
}

/// The width of the widest of some lines.
pub open spec fn widest(ls: Seq<Seq<char>>) -> nat
    decreases ls.len(),
{
    if ls.len() == 0 {
        0
    } else {
        larger(widest(ls.drop_last()), text_width(ls.last()))
    }
}

/// The width of a cell: that of its widest line.
pub open spec fn cell_size(s: Seq<char>) -> nat {
    widest(break_pieces(s))
}

fn cell_width(s: &str) -> (r: usize)
    ensures
        r == cell_size(s@),
        r <= u16::MAX,
{
    let ls: Vec<String> = cell_lines(s);
    let mut most: usize = 0;
    let mut i: usize = 0;
    while i < ls.len()
        invariant
            i <= ls@.len(),
            most == widest(views(ls@).take(i as int)),
            most <= u16::MAX,
        decreases ls@.len() - i,
    {
        let w: usize = display_width(ls[i].as_str());
        if most < w {
            most = w;
        }
        i += 1;
        proof {
            assert(views(ls@).take(i as int).drop_last() =~= views(ls@).take(i - 1));
        }
    }
    proof {
        assert(views(ls@).take(ls@.len() as int) =~= views(ls@));
    }
    most
}

/// The number of lines of the tallest of some cells, 1 for no cells.
pub open spec fn row_size(row: Seq<Seq<char>>) -> nat
    decreases row.len(),
{
    if row.len() == 0 {
        1
    } else {
        larger(row_size(row.drop_last()), break_pieces(row.last()).len())
    }
}

/// How many display lines a row needs: as many as its tallest cell, since
/// every cell in a row shares the grid lines above and below it.
pub fn row_height(row: &[String]) -> (r: usize)
    ensures
        r == row_size(views(row@)),
        r >= 1,
{
    let mut most: usize = 1;
    let mut i: usize = 0;
    while i < row.len()
        invariant
            i <= row@.len(),
            most == row_size(views(row@).take(i as int)),
            most >= 1,
        decreases row@.len() - i,
    {
        let ls: Vec<String> = cell_lines(row[i].as_str());
        if most < ls.len() {
            most = ls.len();
        }
        i += 1;
        proof {
            assert(views(row@).take(i as int).drop_last() =~= views(row@).take(i - 1));
            assert(views(ls@).len() == ls@.len());
        }
    }
    proof {
        assert(views(row@).take(row@.len() as int) =~= views(row@));
    }
    most
}

/// The widest cell of a column, at least `MIN_COL_WIDTH`. Rows that do not
/// reach the column count for nothing.
pub open spec fn col_size(t: Cells, c: int) -> nat
    decreases t.len(),
{
    if t.len() == 0 {
        MIN_COL_WIDTH as nat
    } else if c < t.last().len() {
        larger(col_size(t.drop_last(), c), cell_size(t.last()[c]))
    } else {
        col_size(t.drop_last(), c)
    }
}

/// The number of columns: that of the header.
pub open spec fn col_count(t: Cells) -> nat {
    if t.len() == 0 {
        0
    } else {
        t[0].len()
    }
}

/// The width of every column.
pub open spec fn col_sizes(t: Cells) -> Seq<nat> {
    Seq::new(col_count(t), |c: int| col_size(t, c))
}

fn col_width(table: &Table, c: usize) -> (r: usize)
    ensures
        r == col_size(cells(table@), c as int),
        MIN_COL_WIDTH <= r <= u16::MAX,
{
    let ghost t = cells(table@);
    let mut most: usize = MIN_COL_WIDTH;
    let mut i: usize = 0;
    proof {
        assert(t.take(0).len() == 0);
    }
    while i < table.len()
        invariant
            i <= table@.len(),
            t == cells(table@),
            most == col_size(t.take(i as int), c as int),
            MIN_COL_WIDTH <= most <= u16::MAX,
        decreases table@.len() - i,
    {
        proof {
            assert(t.take(i + 1).drop_last() =~= t.take(i as int));
            assert(t.take(i + 1).last() == views(table@[i as int]@));
        }
        if c < table[i].len() {
            let w: usize = cell_width(table[i][c].as_str());
            if most < w {
                most = w;
            }
        }
        i += 1;
    }
    proof {
        assert(t.take(t.len() as int) =~= t);
    }
    most
}

/// Each column's own width: the widest line of the widest cell in it,
/// header included. Shared by the grid renderer and the box's auto-grow, so
/// the two always agree on how wide a table is.
pub fn col_widths(table: &Table) -> (r: Vec<usize>)
    ensures
        r@.len() == col_count(cells(table@)),
        forall|c: int| 0 <= c < r@.len() ==> #[trigger] r@[c] == col_sizes(cells(table@))[c],
        forall|c: int|
            0 <= c < r@.len() ==> MIN_COL_WIDTH <= #[trigger] r@[c] <= u16::MAX,
{
    let cols: usize = if table.len() == 0 {
        0
    } else {
        table[0].len()
    };
    let mut out: Vec<usize> = Vec::new();
    while out.len() < cols
        invariant
            cols == col_count(cells(table@)),
            out@.len() <= cols,
            forall|c: int|
                0 <= c < out@.len() ==> #[trigger] out@[c] == col_size(cells(table@), c)
                    && MIN_COL_WIDTH <= out@[c] <= u16::MAX,
        decreases cols - out@.len(),
    {
        let c: usize = out.len();
        out.push(col_width(table, c));
    }
    out
}

/// The sum of some sizes, each with `extra` added.
pub open spec fn total(sizes: Seq<nat>, extra: nat) -> nat
    decreases sizes.len(),
{
    if sizes.len() == 0 {
        0
    } else {
        total(sizes.drop_last(), extra) + sizes.last() + extra
    }
}

/// The height of every row.
pub open spec fn row_sizes(t: Cells) -> Seq<nat> {
    Seq::new(t.len(), |i: int| row_size(t[i]))
}

/// The width of a box that shows a table in full: each column with a space
/// on either side, a divider between each two, and the border.
pub open spec fn full_width(t: Cells) -> nat {
    let cols = col_count(t);
    larger(
        total(col_sizes(t), 2) + (if cols > 0 {
            (cols - 1) as nat
        } else {
            0
        }) + 2,
        3,
    )
}

/// The height of a box that shows a table in full: every row's lines, the
/// line under the header where there is a row below it, and the border.
pub open spec fn full_height(t: Cells) -> nat {
    larger(
        larger(total(row_sizes(t), 0), 1) + (if t.len() > 1 {
            1nat
        } else {
            0
        }) + 2,
        4,
    )
}

fn sum_widths(widths: &Vec<usize>) -> (r: u128)
    requires
        forall|c: int| 0 <= c < widths@.len() ==> #[trigger] widths@[c] <= u16::MAX,
    ensures
        r == total(Seq::new(widths@.len(), |c: int| widths@[c] as nat), 2),
        r <= widths@.len() * 0x10001,
{
    let ghost sizes = Seq::new(widths@.len(), |c: int| widths@[c] as nat);
    let n: usize = widths.len();
    let mut sum: u128 = 0;
    let mut i: usize = 0;
    while i < n
        invariant
            i <= n == widths@.len(),
            sizes == Seq::new(widths@.len(), |c: int| widths@[c] as nat),
            forall|c: int| 0 <= c < widths@.len() ==> #[trigger] widths@[c] <= u16::MAX,
            sum == total(sizes.take(i as int), 2),
            sum <= i * 0x10001,
        decreases n - i,
    {
        sum = sum + (widths[i] as u128) + 2;
        i += 1;
        proof {
            assert(sizes.take(i as int).drop_last() =~= sizes.take(i - 1));
        }
    }
    proof {
        assert(sizes.take(sizes.len() as int) =~= sizes);
    }
    sum
}

fn sum_heights(table: &Table, upto: usize) -> (r: u128)
    requires
        upto <= table@.len(),
    ensures
        r == total(row_sizes(cells(table@)).take(upto as int), 0),
        r <= upto * u64::MAX,
{
    let ghost sizes = row_sizes(cells(table@));
    let mut sum: u128 = 0;
    let mut i: usize = 0;
    while i < upto
        invariant
            i <= upto <= table@.len(),
            sizes == row_sizes(cells(table@)),
            sum == total(sizes.take(i as int), 0),
            sum <= i * u64::MAX,
        decreases upto - i,
    {
        let h: usize = row_height(table[i].as_slice());
        proof {
            assert(sizes[i as int] == h);
            assert(i * u64::MAX + u64::MAX == (i + 1) * u64::MAX) by (nonlinear_arith);
            assert((i + 1) * u64::MAX <= u64::MAX * u64::MAX) by (nonlinear_arith)
                requires
                    i + 1 <= u64::MAX,
            ;
        }
        sum = sum + (h as u128);
        i += 1;
        proof {
            assert(sizes.take(i as int).drop_last() =~= sizes.take(i - 1));
        }
    }
    sum
}

/// The box size a table needs to show every cell in full, as 16-bit counts:
/// one padding space on each side of every column, a border, and a single
/// grid line under the header. A row with a multi-line cell takes as many
/// lines as that cell needs.
pub fn render_size(table: &Table) -> (r: (u16, u16))
    ensures
        r.0 == full_width(cells(table@)) % 65536,
        r.1 == full_height(cells(table@)) % 65536,
{
    let ghost t = cells(table@);
    let widths: Vec<usize> = col_widths(table);
    let n: usize = widths.len();
    let sum: u128 = sum_widths(&widths);
    proof {
        assert(Seq::new(widths@.len(), |c: int| widths@[c] as nat) =~= col_sizes(t));
    }
    let dividers: u128 = if n > 0 {
        (n - 1) as u128
    } else {
        0
    };
    let mut width: u128 = sum + dividers + 2;
    if width < 3 {
        width = 3;
    }
    let m: usize = table.len();
    let mut content: u128 = sum_heights(table, m);
    proof {
        assert(row_sizes(t).take(t.len() as int) =~= row_sizes(t));
        assert(m * u64::MAX <= u64::MAX * u64::MAX) by (nonlinear_arith)
            requires
                m <= u64::MAX,
        ;
    }
    if content < 1 {
        content = 1;
    }
    let mut height: u128 = content + (if m > 1 {
        1
    } else {
        0
    }) + 2;
    if height < 4 {
        height = 4;
    }
    ((width % 65536) as u16, (height % 65536) as u16)
}

/// A part of a whole, from 0 to 1: `num` over `den`.
#[derive(Clone, Copy)]
pub struct Fraction {
    pub num: u64,
    pub den: u64,
}

impl Fraction {
    pub open spec fn wf(self) -> bool {
        0 < self.den && self.num <= self.den
    }
}

/// One half.
pub open spec fn half() -> Fraction {
    Fraction { num: 1, den: 2 }
}

/// `center / 2` out of `size`, at most 1.
pub open spec fn centered(doubled: nat, size: u16) -> Fraction {
    Fraction {
        num: if doubled < 2 * size {
            doubled as u64
        } else {
            (2 * size) as u64
        },
        den: (2 * size) as u64,
    }
}

/// Where the middle of a column is in a box `box_width` wide: after the
/// left border and the columns before it, each with its padding and its
/// divider.
pub open spec fn col_center(t: Cells, col: int, box_width: u16) -> Option<Fraction> {
    if col >= col_count(t) {
        None
    } else if box_width < 2 {
        Some(half())
    } else {
        Some(
            centered(
                2 * (1 + total(col_sizes(t).take(col), 3)) + col_sizes(t)[col] + 2,
                box_width,
            ),
        )
    }
}

/// Where the middle of a row is in a box `box_height` tall: after the top
/// border, the rows before it and the line under the header.
pub open spec fn row_center(t: Cells, row: int, box_height: u16) -> Option<Fraction> {
    if row >= t.len() {
        None
    } else if box_height < 2 {
        Some(half())
    } else {
        Some(
            centered(
                2 * (1 + total(row_sizes(t).take(row), 0) + (if row > 0 {
                    1nat
                } else {
                    0
                })) + row_sizes(t)[row],
                box_height,
            ),
        )
    }
}

fn center(doubled: u128, size: u16) -> (r: Fraction)
    requires
        size >= 2,
    ensures
        r == centered(doubled as nat, size),
        r.wf(),
{
    let den: u64 = 2 * size as u64;
    if doubled < den as u128 {
        Fraction { num: doubled as u64, den }
    } else {
        Fraction { num: den, den }
    }
}

/// Where a column's own center sits, as a fraction of a box this wide. It
/// goes by the layout that `render_size` and the grid renderer use, so a
/// connector anchored to a column lines up with it exactly.
pub fn col_center_frac(table: &Table, col: usize, box_width: u16) -> (r: Option<Fraction>)
    ensures
        r == col_center(cells(table@), col as int, box_width),
        r is Some ==> r->0.wf(),
{
    let ghost t = cells(table@);
    let widths: Vec<usize> = col_widths(table);
    let n: usize = widths.len();
    if col >= n {
        return None;
    }
    if box_width < 2 {
        return Some(Fraction { num: 1, den: 2 });
    }
    let mut x: u128 = 1;
    let mut i: usize = 0;
    let ghost sizes = col_sizes(t);
    while i < col
        invariant
            i <= col < n == widths@.len() == sizes.len(),
            forall|c: int|
                0 <= c < widths@.len() ==> #[trigger] widths@[c] == sizes[c] && widths@[c]
                    <= u16::MAX,
            x == 1 + total(sizes.take(i as int), 3),
            x <= 1 + i * 0x10002,
        decreases col - i,
    {
        x = x + (widths[i] as u128) + 3;
        i += 1;
        proof {
            assert(sizes.take(i as int).drop_last() =~= sizes.take(i - 1));
        }
    }
    Some(center(2 * x + (widths[col] as u128) + 2, box_width))
}

/// Where a row's own center sits, as a fraction of a box this tall,
/// counting the grid line under the header and any row that is taller than
/// one line.
pub fn row_center_frac(table: &Table, row: usize, box_height: u16) -> (r: Option<Fraction>)
    ensures
        r == row_center(cells(table@), row as int, box_height),
        r is Some ==> r->0.wf(),
{
    let ghost t = cells(table@);
    if row >= table.len() {
        return None;
    }
    if box_height < 2 {
        return Some(Fraction { num: 1, den: 2 });
    }
    let above: u128 = sum_heights(table, row);
    let h: usize = row_height(table[row].as_slice());
    proof {
        assert(row_sizes(t)[row as int] == h);
    }
    let line: u128 = if row > 0 {
        1
    } else {
        0
    };
    let limit: u128 = 0x2_0000;
    if above >= limit || h as u128 >= limit {
        let den: u64 = 2 * box_height as u64;
        return Some(Fraction { num: den, den });
    }
    Some(center(2 * (1 + above + line) + (h as u128), box_height))
}

} // verus!

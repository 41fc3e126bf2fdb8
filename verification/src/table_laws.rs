//! What holds of every table: writing one and reading it back gives the
//! table, and so do a cell's line break marks.

use vstd::prelude::*;

use crate::outline_laws::lemma_trim_is;
use crate::table::{
    cell_break, dashes, decoded, encoded, fitted, formatted, is_barred, is_rule, is_rule_char,
    rectangular, row_line, row_of, starts_break, table_lines, table_of, table_of_lines, trimmed,
    without_bars, Cells,
};
use crate::text::{
    is_line, is_space, joined, lemma_lines_of_join, lemma_split_of_join, repeated, trim,
};

verus! {

/// Whether a cell can be written: it has no space at its ends, no bar and
/// no newline.
pub open spec fn is_cell(s: Seq<char>) -> bool {
    &&& trim(s) == s
    &&& !s.contains('|')
    &&& !s.contains('\n')
}

/// Whether every cell of a row can be written.
pub open spec fn is_row(row: Seq<Seq<char>>) -> bool {
    forall|i: int| 0 <= i < row.len() ==> is_cell(#[trigger] row[i])
}

/// The text between a row's outer bars.
spec fn row_inner(row: Seq<Seq<char>>) -> Seq<char> {
    joined(padded(row), '|')
}

/// Every cell with a space on either side.
spec fn padded(row: Seq<Seq<char>>) -> Seq<Seq<char>> {
    Seq::new(row.len(), |i: int| seq![' '] + row[i] + seq![' '])
}

proof fn lemma_row_line(row: Seq<Seq<char>>)
    requires
        row.len() > 0,
    ensures
        row_line(row) == seq!['|'] + row_inner(row) + seq!['|'],
    decreases row.len(),
{
    let p = padded(row);
    if row.len() == 1 {
        assert(row_line(row.drop_last()) == seq!['|']);
        assert(row_line(row) =~= seq!['|'] + p[0] + seq!['|']);
    } else {
        lemma_row_line(row.drop_last());
        assert(p.drop_last() =~= padded(row.drop_last()));
        assert(row_line(row) =~= seq!['|'] + row_inner(row) + seq!['|']);
    }
}

proof fn lemma_row_line_chars(row: Seq<Seq<char>>)
    requires
        is_row(row),
    ensures
        !row_line(row).contains('\n'),
        row_line(row).len() > 0,
        row_line(row).first() == '|',
        row_line(row).last() == '|',
    decreases row.len(),
{
    if row.len() > 0 {
        assert(is_cell(row.last()));
        assert(is_row(row.drop_last())) by {
            assert forall|i: int| 0 <= i < row.drop_last().len() implies is_cell(
                #[trigger] row.drop_last()[i],
            ) by {
                assert(is_cell(row[i]));
            }
        }
        lemma_row_line_chars(row.drop_last());
        let a = row_line(row.drop_last());
        let line = row_line(row);
        assert forall|k: int| 0 <= k < line.len() implies line[k] != '\n' by {
            if k < a.len() {
                assert(a.contains(a[k]));
            } else if a.len() < k < a.len() + 1 + row.last().len() {
                assert(row.last().contains(row.last()[k - a.len() - 1]));
            }
        }
    }
}

/// A line written for a row reads as the cells of that row.
pub proof fn lemma_row_reads_back(row: Seq<Seq<char>>)
    requires
        row.len() > 0,
        is_row(row),
    ensures
        row_of(row_line(row)) == Some(row),
{
    let line = row_line(row);
    let inner = row_inner(row);
    lemma_row_line(row);
    lemma_trim_is(line, 0, line.len() as int);
    assert(trim(line) =~= line);
    assert(line.skip(1) =~= inner + seq!['|']);
    assert((inner + seq!['|']).drop_last() =~= inner);
    assert(without_bars(line) == inner);
    assert(is_barred(line));
    let p = padded(row);
    assert forall|i: int| 0 <= i < p.len() implies !(#[trigger] p[i]).contains('|') by {
        assert(is_cell(row[i]));
        assert forall|k: int| 0 <= k < p[i].len() implies p[i][k] != '|' by {
            if 0 < k < p[i].len() - 1 {
                assert(row[i].contains(row[i][k - 1]));
            }
        }
    }
    lemma_split_of_join(p, '|');
    assert(trimmed(p) =~= row) by {
        assert forall|i: int| 0 <= i < row.len() implies trim(#[trigger] p[i]) == row[i] by {
            assert(is_cell(row[i]));
            lemma_trim_padded(row[i]);
        }
    }
}

proof fn lemma_trim_padded(c: Seq<char>)
    requires
        trim(c) == c,
    ensures
        trim(seq![' '] + c + seq![' ']) == c,
{
    let s = seq![' '] + c + seq![' '];
    lemma_trim_is(c, 0, c.len() as int);
    if c.len() == 0 {
        lemma_trim_is(s, 0, 0);
    } else {
        assert(s[1] == c[0]);
        assert(s[c.len() as int] == c.last());
        lemma_trim_is(s, 1, 1 + c.len() as int);
        assert(s.subrange(1, 1 + c.len() as int) =~= c);
    }
}

proof fn lemma_rule(n: nat)
    requires
        n > 0,
    ensures
        is_rule(row_line(dashes(n))),
{
    let row = dashes(n);
    lemma_rule_chars(n);
    lemma_row_line(row);
    let line = row_line(row);
    lemma_trim_is(line, 0, line.len() as int);
    assert(trim(line) =~= line);
}

proof fn lemma_rule_chars(n: nat)
    ensures
        forall|k: int|
            0 <= k < row_line(dashes(n)).len() ==> is_rule_char(#[trigger] row_line(dashes(n))[k]),
    decreases n,
{
    let row = dashes(n);
    if n > 0 {
        lemma_rule_chars((n - 1) as nat);
        assert(row.drop_last() =~= dashes((n - 1) as nat));
        let a = row_line(row.drop_last());
        let line = row_line(row);
        assert forall|k: int| 0 <= k < line.len() implies is_rule_char(#[trigger] line[k]) by {
            if k < a.len() {
                assert(is_rule_char(a[k]));
            }
        }
    }
}

proof fn lemma_table_lines(t: Cells)
    requires
        t.len() > 0,
    ensures
        table_lines(t).len() == t.len() + 1,
        table_lines(t)[0] == row_line(t[0]),
        table_lines(t)[1] == row_line(dashes(t[0].len())),
        forall|i: int| 1 <= i < t.len() ==> #[trigger] table_lines(t)[i + 1] == row_line(t[i]),
    decreases t.len(),
{
    if t.len() > 1 {
        lemma_table_lines(t.drop_last());
        assert forall|i: int| 1 <= i < t.len() implies #[trigger] table_lines(t)[i + 1] == row_line(
            t[i],
        ) by {
            if i < t.len() - 1 {
                assert(table_lines(t.drop_last())[i + 1] == row_line(t.drop_last()[i]));
            }
        }
    }
}

/// Reading what `format` wrote gives the table back: any rectangular table
/// with at least one column, and cells without bars, newlines or space at
/// their ends.
pub proof fn lemma_table_reads_back(t: Cells)
    requires
        t.len() > 0,
        t[0].len() > 0,
        rectangular(t),
        forall|i: int| 0 <= i < t.len() ==> is_row(#[trigger] t[i]),
    ensures
        table_of(formatted(t)) == Some(t),
{
    let ls = table_lines(t);
    let cols = t[0].len();
    lemma_table_lines(t);
    assert forall|i: int| 0 <= i < ls.len() implies is_line(#[trigger] ls[i]) && ls[i].len()
        > 0 by {
        if i == 0 {
            lemma_row_line_chars(t[0]);
        } else if i == 1 {
            assert(is_row(dashes(cols))) by {
                assert forall|k: int| 0 <= k < cols implies is_cell(#[trigger] dashes(cols)[k]) by {
                    let d = seq!['-', '-', '-'];
                    lemma_trim_is(d, 0, 3);
                    assert(d.subrange(0, 3) =~= d);
                }
            }
            lemma_row_line_chars(dashes(cols));
        } else {
            assert(ls[(i - 1) + 1] == row_line(t[i - 1]));
            lemma_row_line_chars(t[i - 1]);
        }
    }
    lemma_lines_of_join(ls);
    lemma_row_reads_back(t[0]);
    lemma_rule(cols);
    let got = table_of_lines(ls)->0;
    assert forall|i: int| 0 <= i < t.len() implies #[trigger] got[i] == t[i] by {
        if i > 0 {
            assert(ls[i + 1] == row_line(t[i]));
            assert(is_row(t[i]));
            lemma_row_reads_back(t[i]);
            assert(fitted(Some(t[i]), cols) =~= t[i]);
        }
    }
    assert(got =~= t);
}

/// Every table that is read is rectangular and at least one column wide.
pub proof fn lemma_read_table_is_rectangular(text: Seq<char>)
    requires
        table_of(text) is Some,
    ensures
        table_of(text)->0.len() > 0,
        rectangular(table_of(text)->0),
        table_of(text)->0[0].len() > 0,
{
    let ls = crate::text::lines(text);
    crate::text::lemma_split_nonempty(without_bars(ls[0]), '|');
}

/// Decoding what was encoded gives a text back that has no line break mark
/// of its own.
pub proof fn lemma_decode_of_encode(s: Seq<char>)
    requires
        forall|i: int| 0 <= i <= s.len() ==> !starts_break(#[trigger] s.skip(i)),
    ensures
        decoded(encoded(s)) == s,
    decreases s.len(),
{
    if s.len() == 0 {
        assert(decoded(encoded(s)) =~= s);
    } else {
        let rest = s.skip(1);
        assert forall|i: int| 0 <= i <= rest.len() implies !starts_break(
            #[trigger] rest.skip(i),
        ) by {
            assert(rest.skip(i) =~= s.skip(i + 1));
        }
        lemma_decode_of_encode(rest);
        let e = encoded(s);
        if s[0] == '\n' {
            assert(e.take(4) =~= cell_break());
            assert(e.skip(4) =~= encoded(rest));
        } else {
            assert(e.skip(1) =~= encoded(rest));
            assert(s.skip(0) =~= s);
            assert(!starts_break(e)) by {
                if starts_break(e) {
                    let head = e.take(4);
                    assert(head[0] == '<' && head[1] == 'b' && head[2] == 'r' && head[3] == '>');
                    assert(e[0] == '<' && e[1] == 'b' && e[2] == 'r' && e[3] == '>');
                    lemma_encoded_head(rest, e.skip(1), 3);
                    assert(rest[0] == 'b' && rest[1] == 'r' && rest[2] == '>');
                    assert(s.take(4) =~= cell_break());
                }
            }
        }
        assert(decoded(e) =~= s);
    }
}

/// Where the first characters of an encoded text hold no `<`, they are the
/// text's own.
proof fn lemma_encoded_head(s: Seq<char>, e: Seq<char>, n: int)
    requires
        e == encoded(s),
        0 <= n <= e.len(),
        forall|k: int| 0 <= k < n ==> #[trigger] e[k] != '<',
    ensures
        n <= s.len(),
        forall|k: int| 0 <= k < n ==> #[trigger] s[k] == e[k],
    decreases s.len(),
{
    if n > 0 {
        assert(e[0] != '<');
        assert(s.len() > 0);
        if s[0] == '\n' {
            assert(e[0] == cell_break()[0]);
        } else {
            let rest = s.skip(1);
            assert(e.skip(1) =~= encoded(rest));
            assert forall|k: int| 0 <= k < n - 1 implies #[trigger] e.skip(1)[k] != '<' by {
                assert(e[k + 1] != '<');
            }
            lemma_encoded_head(rest, e.skip(1), n - 1);
            assert forall|k: int| 0 <= k < n implies #[trigger] s[k] == e[k] by {
                if k > 0 {
                    assert(rest[k - 1] == e.skip(1)[k - 1]);
                }
            }
        }
    }
}

/// Encoding what was decoded gives a cell back that holds no newline, as no
/// stored cell does.
pub proof fn lemma_encode_of_decode(s: Seq<char>)
    requires
        !s.contains('\n'),
    ensures
        encoded(decoded(s)) == s,
    decreases s.len(),
{
    if s.len() == 0 {
        assert(encoded(decoded(s)) =~= s);
    } else if starts_break(s) {
        let rest = s.skip(4);
        assert forall|k: int| 0 <= k < rest.len() implies rest[k] != '\n' by {
            assert(s.contains(s[k + 4]));
        }
        lemma_encode_of_decode(rest);
        let d = decoded(s);
        assert(d.skip(1) =~= decoded(rest));
        assert(s =~= s.take(4) + rest);
        assert(encoded(d) =~= s);
    } else {
        let rest = s.skip(1);
        assert forall|k: int| 0 <= k < rest.len() implies rest[k] != '\n' by {
            assert(s.contains(s[k + 1]));
        }
        lemma_encode_of_decode(rest);
        assert(s.contains(s[0]));
        let d = decoded(s);
        assert(d.skip(1) =~= decoded(rest));
        assert(encoded(d) =~= s);
    }
}

/// Which cell of a text a table's cell is: the header's cells are those of
/// the first line, and row by row those of the lines behind the separator.
/// A row that has fewer cells than the header goes on with empty ones, and
/// what a row has beyond is left out.
pub proof fn lemma_cells_are_read_in_place(ls: Seq<Seq<char>>, i: int, j: int)
    requires
        ls.len() >= 2,
        row_of(ls[0]) is Some,
        is_rule(ls[1]),
        0 <= i < ls.len() - 1,
        0 <= j < row_of(ls[0])->0.len(),
    ensures
        ({
            let t = table_of_lines(ls)->0;
            let line = if i == 0 {
                ls[0]
            } else {
                ls[i + 1]
            };
            &&& table_of_lines(ls) is Some
            &&& t.len() == ls.len() - 1
            &&& t[i].len() == row_of(ls[0])->0.len()
            &&& row_of(line) is Some && j < row_of(line)->0.len() ==> t[i][j] == row_of(line)->0[j]
            &&& row_of(line) is None || j >= row_of(line)->0.len() ==> t[i][j].len() == 0
        }),
{
}

/// A text without a separator in its second line is no table.
pub proof fn lemma_table_needs_its_separator(ls: Seq<Seq<char>>)
    ensures
        table_of_lines(ls) is Some <==> ls.len() >= 2 && row_of(ls[0]) is Some && is_rule(ls[1]),
{
}

/// A line with anything but dashes, colons, bars and spaces between its ends
/// is no separator.
pub proof fn lemma_separator_has_no_text(line: Seq<char>, c: char, n: nat)
    requires
        n > 0,
    ensures
        trim(line).contains(c) && c != '-' && c != ':' && c != '|' && c != ' ' ==> !is_rule(line),
        is_rule(repeated('-', n)),
        trim(line).len() == 0 ==> !is_rule(line),
{
    if trim(line).contains(c) {
        let k = trim(line).index_of(c);
        assert(trim(line)[k] == c);
    }
    let d = repeated('-', n);
    lemma_trim_is(d, 0, n as int);
    assert(!is_space('-'));
    assert(d[0] == '-' && d[n - 1] == '-');
    assert(trim(d) =~= d);
}

/// The outer bars of a row can be left out.
pub proof fn lemma_outer_bars_can_be_left_out(s: Seq<char>)
    requires
        s.len() > 0,
        trim(s) == s,
        s[0] != '|',
        s.last() != '|',
    ensures
        row_of(seq!['|'] + s + seq!['|']) == row_of(s),
        row_of(s) is Some,
{
    let b = seq!['|'] + s + seq!['|'];
    assert(!is_space('|'));
    assert(b[0] == '|' && b[b.len() - 1] == '|');
    lemma_trim_is(b, 0, b.len() as int);
    assert(b.subrange(0, b.len() as int) =~= b);
    assert(trim(b) =~= b);
    assert(b.skip(1) =~= s + seq!['|']);
    assert((s + seq!['|']).drop_last() =~= s);
    assert(without_bars(b) =~= s);
    assert(without_bars(s) =~= s);
}

} // verus!

//! What holds of how much room texts, tables and boards take.

use vstd::prelude::*;

use crate::app::{DOUBLE_CLICK, MIN_H, MIN_W, UNDO_LIMIT};
use crate::editing::{content_rows, line_rows, text_height};
use crate::grid::Grid;
use crate::layout::{COMPONENT_GAP, GAP_X, GAP_Y};
use crate::mind_render::INDENT;
use crate::model::NodeView;
use crate::outline::leading_run;
use crate::plain::{
    bottom_edge, drawn_rows, left_edge, outdented, right_edge, shared_indent, top_edge,
    trimmed_rows, without_lead, without_tail, MARGIN,
};
use crate::table::{
    break_pieces, cell_size, col_center, col_size, col_sizes, full_width,
    lemma_break_pieces_nonempty, row_center, row_size, row_sizes, text_width, total, widest, Cells,
    MIN_COL_WIDTH,
};
use crate::text::{is_space, joined, lemma_split_of_join, trim_end};

verus! {

/// A line takes the fewest rows that hold it, and an empty one takes one.
pub proof fn lemma_line_takes_its_rows(len: int, width: int)
    requires
        width > 0,
        0 <= len <= 65535 * width,
    ensures
        line_rows(len, width) >= 1,
        len <= line_rows(len, width) * width,
        len > 0 ==> (line_rows(len, width) - 1) * width < len,
        len == 0 ==> line_rows(len, width) == 1,
{
    if len > 0 {
        let n = (len + width - 1) / width;
        vstd::arithmetic::div_mod::lemma_fundamental_div_mod(len + width - 1, width);
        vstd::arithmetic::div_mod::lemma_mod_bound(len + width - 1, width);
        let m = (len + width - 1) % width;
        assert(1 <= n <= 65535 && len <= n * width && (n - 1) * width < len) by (nonlinear_arith)
            requires
                len + width - 1 == width * n + m,
                0 <= m < width,
                0 < len <= 65535 * width,
                width > 0,
        ;
        assert(n % 65536 == n);
    }
}

proof fn lemma_content_push(ls: Seq<Seq<char>>, l: Seq<char>, width: int)
    ensures
        content_rows(ls.push(l), width) == content_rows(ls, width) + line_rows(
            l.len() as int,
            width,
        ),
{
    assert(ls.push(l).drop_last() =~= ls);
}

proof fn lemma_content_nonneg(ls: Seq<Seq<char>>, width: int)
    requires
        width > 0,
        forall|i: int| 0 <= i < ls.len() ==> (#[trigger] ls[i]).len() <= 65535 * width,
    ensures
        content_rows(ls, width) >= ls.len(),
    decreases ls.len(),
{
    if ls.len() > 0 {
        let rest = ls.drop_last();
        assert forall|i: int| 0 <= i < rest.len() implies (#[trigger] rest[i]).len() <= 65535
            * width by {
            assert(rest[i] == ls[i]);
        }
        lemma_content_nonneg(rest, width);
        assert(ls[ls.len() - 1].len() <= 65535 * width);
        lemma_line_takes_its_rows(ls.last().len() as int, width);
    }
}

/// A box is as high as its text needs, line by line: one line takes its rows
/// and the border, and every line more takes its own rows more.
pub proof fn lemma_text_takes_its_lines(ls: Seq<Seq<char>>, l: Seq<char>, width: u16)
    requires
        width > 0,
        forall|i: int|
            0 <= i < ls.len() ==> !(#[trigger] ls[i]).contains('\n') && ls[i].len() <= 65535 * width,
        !l.contains('\n'),
        l.len() <= 65535 * width,
    ensures
        text_height(l, width) == line_rows(l.len() as int, width as int) + 2,
        ls.len() > 0 ==> text_height(joined(ls.push(l), '\n'), width) == text_height(
            joined(ls, '\n'),
            width,
        ) + line_rows(l.len() as int, width as int),
{
    let w = width as int;
    lemma_line_takes_its_rows(l.len() as int, w);
    let one = seq![l];
    lemma_split_of_join(one, '\n');
    assert(one =~= Seq::<Seq<char>>::empty().push(l));
    lemma_content_push(Seq::empty(), l, w);
    assert(joined(one, '\n') == l);
    if ls.len() > 0 {
        let more = ls.push(l);
        lemma_split_of_join(ls, '\n');
        assert forall|i: int| 0 <= i < more.len() implies !(#[trigger] more[i]).contains('\n') by {
            if i < ls.len() {
                assert(more[i] == ls[i]);
            }
        }
        lemma_split_of_join(more, '\n');
        lemma_content_push(ls, l, w);
        lemma_content_nonneg(ls, w);
    }
}

proof fn lemma_widest(ls: Seq<Seq<char>>)
    ensures
        forall|i: int| 0 <= i < ls.len() ==> text_width(#[trigger] ls[i]) <= widest(ls),
        ls.len() > 0 ==> exists|i: int|
            0 <= i < ls.len() && text_width(#[trigger] ls[i]) == widest(ls),
    decreases ls.len(),
{
    if ls.len() > 0 {
        let rest = ls.drop_last();
        let n = ls.len() - 1;
        lemma_widest(rest);
        assert forall|i: int| 0 <= i < ls.len() implies text_width(#[trigger] ls[i]) <= widest(
            ls,
        ) by {
            if i < n {
                assert(rest[i] == ls[i]);
            }
        }
        if text_width(ls[n]) == widest(ls) {
        } else {
            assert(rest.len() > 0);
            let i = choose|i: int|
                0 <= i < rest.len() && text_width(#[trigger] rest[i]) == widest(rest);
            assert(ls[i] == rest[i]);
        }
    }
}

/// A column is wide enough for every line of every cell in it, and no wider
/// than the widest of them, but for a least width.
pub proof fn lemma_column_is_as_wide_as_its_cells(t: Cells, c: int)
    requires
        0 <= c,
    ensures
        col_size(t, c) >= MIN_COL_WIDTH,
        forall|i: int, k: int|
            0 <= i < t.len() && c < t[i].len() && 0 <= k < break_pieces(t[i][c]).len()
                ==> text_width(#[trigger] break_pieces(t[i][c])[k]) <= col_size(t, c),
        col_size(t, c) > MIN_COL_WIDTH ==> exists|i: int, k: int|
            0 <= i < t.len() && c < t[i].len() && 0 <= k < break_pieces(t[i][c]).len()
                && text_width(#[trigger] break_pieces(t[i][c])[k]) == col_size(t, c),
    decreases t.len(),
{
    if t.len() > 0 {
        let rest = t.drop_last();
        let n = t.len() - 1;
        lemma_column_is_as_wide_as_its_cells(rest, c);
        if c < t[n].len() {
            lemma_widest(break_pieces(t[n][c]));
            lemma_break_pieces_nonempty(t[n][c]);
        }
        assert forall|i: int, k: int|
            0 <= i < t.len() && c < t[i].len() && 0 <= k < break_pieces(
                t[i][c],
            ).len() implies text_width(#[trigger] break_pieces(t[i][c])[k]) <= col_size(t, c) by {
            if i < n {
                assert(rest[i] == t[i]);
                assert(text_width(break_pieces(rest[i][c])[k]) <= col_size(rest, c));
            }
        }
        if col_size(t, c) > MIN_COL_WIDTH {
            if c < t[n].len() && col_size(t, c) == cell_size(t[n][c]) {
                let ls = break_pieces(t[n][c]);
                let k = choose|k: int|
                    0 <= k < ls.len() && text_width(#[trigger] ls[k]) == widest(ls);
                assert(text_width(break_pieces(t[n][c])[k]) == col_size(t, c));
            } else {
                assert(col_size(t, c) == col_size(rest, c));
                let (i, k) = choose|i: int, k: int|
                    0 <= i < rest.len() && c < rest[i].len() && 0 <= k < break_pieces(
                        rest[i][c],
                    ).len() && text_width(#[trigger] break_pieces(rest[i][c])[k]) == col_size(
                        rest,
                        c,
                    );
                assert(t[i] == rest[i]);
                assert(text_width(break_pieces(t[i][c])[k]) == col_size(t, c));
            }
        }
    }
}

/// A row is high enough for the lines of every cell in it, and no higher than
/// the cell with the most, but for one line.
pub proof fn lemma_row_is_as_high_as_its_cells(row: Seq<Seq<char>>)
    ensures
        row_size(row) >= 1,
        forall|c: int|
            0 <= c < row.len() ==> break_pieces(#[trigger] row[c]).len() <= row_size(row),
        row_size(row) > 1 ==> exists|c: int|
            0 <= c < row.len() && break_pieces(#[trigger] row[c]).len() == row_size(row),
    decreases row.len(),
{
    if row.len() > 0 {
        let rest = row.drop_last();
        let n = row.len() - 1;
        lemma_row_is_as_high_as_its_cells(rest);
        assert forall|c: int| 0 <= c < row.len() implies break_pieces(#[trigger] row[c]).len()
            <= row_size(row) by {
            if c < n {
                assert(rest[c] == row[c]);
            }
        }
        if row_size(row) > 1 {
            if break_pieces(row[n]).len() == row_size(row) {
            } else {
                let c = choose|c: int|
                    0 <= c < rest.len() && break_pieces(#[trigger] rest[c]).len() == row_size(rest);
                assert(row[c] == rest[c]);
            }
        }
    }
}

proof fn lemma_total_extra(sizes: Seq<nat>)
    ensures
        total(sizes, 3) == total(sizes, 2) + sizes.len(),
    decreases sizes.len(),
{
    if sizes.len() > 0 {
        lemma_total_extra(sizes.drop_last());
    }
}

/// The columns of a grid stand side by side: each starts where the one before
/// it ends, with a space on either side of it and a divider between them. In a
/// box that is as wide as the table needs, the last one ends at the border.
pub proof fn lemma_columns_fill_the_box(g: Grid, c: int)
    requires
        0 <= c < g.cols(),
        g.rect.x + g.rect.width <= u16::MAX,
        g.rect.width >= 2,
    ensures
        g.col_x(0) == g.rect.x + 1,
        c + 1 < g.cols() ==> g.col_x(c + 1) == g.col_x(c) + 1 + g.width(c) + 1 + 1,
        c + 1 == g.cols() && g.rect.width == full_width(g.cells) ==> g.col_x(c) + 1 + g.width(c) + 1
            == g.rect.x + g.rect.width - 1,
{
    let sizes = col_sizes(g.cells);
    assert(sizes.take(0) =~= Seq::<nat>::empty());
    assert(sizes.take(c + 1).drop_last() =~= sizes.take(c));
    assert(sizes.take(sizes.len() as int) =~= sizes);
    lemma_total_extra(sizes);
    lemma_column_is_as_wide_as_its_cells(g.cells, c);
    if c + 1 == g.cols() {
        assert(sizes.drop_last() =~= sizes.take(c));
    }
}

/// A connector that is lined up with a column meets the box at the middle of
/// that column, spaces around it included.
pub proof fn lemma_column_anchor_is_in_its_middle(g: Grid, c: int)
    requires
        0 <= c < g.cols(),
        g.rect.x + g.rect.width <= u16::MAX,
        g.rect.width >= 2,
        g.col_x(c) + g.width(c) + 2 <= g.rect.x + g.rect.width,
    ensures
        ({
            let part = col_center(g.cells, c, g.rect.width);
            let (left, right) = (g.col_x(c) - g.rect.x, g.col_x(c) + g.width(c) + 2 - g.rect.x);
            &&& part is Some
            &&& part->0.num == left + right
            &&& part->0.den == 2 * g.rect.width
        }),
{
}

/// Where the middle of a row is: below the border and the rows above it, and
/// below the line under the header for every row but that.
pub proof fn lemma_row_anchors_go_down(t: Cells, r: int, height: u16)
    requires
        0 <= r < t.len(),
        height >= 2,
    ensures
        ({
            let a = row_center(t, r, height);
            let b = row_center(t, r + 1, height);
            &&& a is Some && a->0.den == 2 * height
            &&& r == 0 && 2 + row_size(t[0]) < 2 * height ==> a->0.num == 2 + row_size(t[0])
            &&& r + 1 == t.len() ==> b is None
            &&& r + 1 < t.len() && b->0.num < 2 * height ==> b->0.num == a->0.num + row_size(t[r])
                + row_size(t[r + 1]) + if r == 0 {
                2nat
            } else {
                0
            }
        }),
{
    let sizes = row_sizes(t);
    assert(sizes.take(0) =~= Seq::<nat>::empty());
    assert(sizes.take(r + 1).drop_last() =~= sizes.take(r));
}

/// What shows of a cell on a line is its text with one space before it,
/// filled up to the width of its column, and one more character: a space, or
/// the cursor in the cell that is being typed into, on its last line.
pub proof fn lemma_cell_fills_its_column(g: Grid, r: int, c: int, line: int)
    requires
        0 <= r < g.cells.len(),
        0 <= c < g.cols(),
        0 <= line,
        c < g.cells[r].len(),
    ensures
        ({
            let text = g.line_text(r, c, line);
            let shown = g.cell_text(r, c, line);
            let n = text.len() as int;
            let lines = break_pieces(g.cells[r][c]);
            &&& line < lines.len() ==> text == lines[line]
            &&& line >= lines.len() ==> text.len() == 0
            &&& shown[0] == ' '
            &&& shown.subrange(1, 1 + n) == text
            &&& forall|k: int| 1 + n <= k < shown.len() - 1 ==> #[trigger] shown[k] == ' '
            &&& line < lines.len() ==> shown.len() - n - 2 + text_width(text) == g.width(c)
            &&& shown.last() == if g.cursor == Some((r as usize, c as usize)) && line
                == lines.len() - 1 && r <= usize::MAX && c <= usize::MAX {
                '▏'
            } else {
                ' '
            }
        }),
{
    let text = g.line_text(r, c, line);
    let shown = g.cell_text(r, c, line);
    assert(g.row(r)[c] == g.cells[r][c]);
    lemma_column_is_as_wide_as_its_cells(g.cells, c);
    let ls = break_pieces(g.cells[r][c]);
    if line < ls.len() {
        assert(text_width(break_pieces(g.cells[r][c])[line]) <= col_size(g.cells, c));
    }
    let n = text.len() as int;
    assert(shown.subrange(1, 1 + n) =~= text);
}

/// The line under the header is as long as the columns are wide, and crosses
/// each divider where it stands.
pub proof fn lemma_rule_crosses_the_dividers(g: Grid, k: int, c: int)
    requires
        0 < k <= g.cols(),
        0 <= c < k,
        g.rect.x + g.rect.width <= u16::MAX,
        g.rect.width >= 2,
    ensures
        g.rule(k).len() == g.col_x(k - 1) + g.width(k - 1) + 2 - (g.rect.x + 1),
        c > 0 ==> g.rule(k)[g.col_x(c) - 1 - (g.rect.x + 1)] == '┼',
        forall|i: int|
            g.col_x(c) - (g.rect.x + 1) <= i < g.col_x(c) + g.width(c) + 2 - (g.rect.x + 1)
                ==> #[trigger] g.rule(k)[i] == '─',
        g.col_x(c) <= g.col_x(k - 1),
    decreases k,
{
    lemma_columns_fill_the_box(g, k - 1);
    assert(g.rule(0) =~= Seq::<char>::empty());
    if k > 1 {
        lemma_columns_fill_the_box(g, k - 2);
        lemma_rule_crosses_the_dividers(g, k - 1, if c < k - 1 {
            c
        } else {
            k - 2
        });
        let before = g.rule(k - 1);
        if c < k - 1 {
            assert forall|i: int|
                g.col_x(c) - (g.rect.x + 1) <= i < g.col_x(c) + g.width(c) + 2 - (g.rect.x
                    + 1) implies #[trigger] g.rule(k)[i] == '─' by {
                lemma_column_before(g, c, k - 2);
                assert(i < before.len());
                assert(before[i] == '─');
            }
            lemma_column_before(g, c, k - 2);
        }
    }
}

proof fn lemma_column_before(g: Grid, c: int, d: int)
    requires
        0 <= c <= d < g.cols(),
        g.rect.x + g.rect.width <= u16::MAX,
        g.rect.width >= 2,
    ensures
        g.col_x(c) + g.width(c) <= g.col_x(d) + g.width(d),
        g.col_x(c) >= g.rect.x + 1,
        c > 0 ==> g.col_x(c) >= g.rect.x + 4,
    decreases d,
{
    lemma_columns_fill_the_box(g, c);
    if c > 0 {
        lemma_columns_fill_the_box(g, c - 1);
        lemma_column_before(g, c - 1, c - 1);
    }
    if c < d {
        lemma_column_before(g, c, d - 1);
        lemma_columns_fill_the_box(g, d - 1);
    }
}

/// The extent of a board is the smallest that holds every box.
pub proof fn lemma_extent_holds_every_box(nodes: Seq<NodeView>)
    requires
        nodes.len() > 0,
    ensures
        forall|i: int|
            0 <= i < nodes.len() ==> {
                let r = (#[trigger] nodes[i]).rect;
                &&& left_edge(nodes) <= r.x && r.x + r.width <= right_edge(nodes)
                &&& top_edge(nodes) <= r.y && r.y + r.height <= bottom_edge(nodes)
            },
        exists|i: int| 0 <= i < nodes.len() && (#[trigger] nodes[i]).rect.x == left_edge(nodes),
        exists|i: int| 0 <= i < nodes.len() && (#[trigger] nodes[i]).rect.y == top_edge(nodes),
        exists|i: int|
            0 <= i < nodes.len() && (#[trigger] nodes[i]).rect.x + nodes[i].rect.width
                == right_edge(nodes),
        exists|i: int|
            0 <= i < nodes.len() && (#[trigger] nodes[i]).rect.y + nodes[i].rect.height
                == bottom_edge(nodes),
    decreases nodes.len(),
{
    let n = nodes.len() - 1;
    if n == 0 {
        assert(nodes[0] == nodes[0]);
    } else {
        let rest = nodes.drop_last();
        lemma_extent_holds_every_box(rest);
        assert forall|i: int| 0 <= i < nodes.len() implies {
            let r = (#[trigger] nodes[i]).rect;
            &&& left_edge(nodes) <= r.x && r.x + r.width <= right_edge(nodes)
            &&& top_edge(nodes) <= r.y && r.y + r.height <= bottom_edge(nodes)
        } by {
            if i < n {
                assert(rest[i] == nodes[i]);
            }
        }
        let a = choose|i: int|
            0 <= i < rest.len() && (#[trigger] rest[i]).rect.x == left_edge(rest);
        let b = choose|i: int| 0 <= i < rest.len() && (#[trigger] rest[i]).rect.y == top_edge(rest);
        let c = choose|i: int|
            0 <= i < rest.len() && (#[trigger] rest[i]).rect.x + rest[i].rect.width == right_edge(
                rest,
            );
        let d = choose|i: int|
            0 <= i < rest.len() && (#[trigger] rest[i]).rect.y + rest[i].rect.height
                == bottom_edge(rest);
        assert(nodes[a] == rest[a] && nodes[b] == rest[b]);
        assert(nodes[c] == rest[c] && nodes[d] == rest[d]);
        assert(nodes[n] == nodes.last());
    }
}

proof fn lemma_trim_end_is(s: Seq<char>)
    ensures
        trim_end(s).len() <= s.len(),
        forall|k: int| 0 <= k < trim_end(s).len() ==> #[trigger] trim_end(s)[k] == s[k],
        forall|k: int| trim_end(s).len() <= k < s.len() ==> is_space(#[trigger] s[k]),
        trim_end(s).len() > 0 ==> !is_space(trim_end(s).last()),
    decreases s.len(),
{
    if s.len() > 0 && is_space(s.last()) {
        lemma_trim_end_is(s.drop_last());
        assert forall|k: int| trim_end(s).len() <= k < s.len() implies is_space(#[trigger] s[k]) by {
            if k < s.len() - 1 {
                assert(s.drop_last()[k] == s[k]);
            }
        }
    }
}

proof fn lemma_without_lead(rows: Seq<Seq<char>>)
    ensures
        without_lead(rows).len() <= rows.len(),
        without_lead(rows) == rows.skip(rows.len() - without_lead(rows).len()),
        without_lead(rows).len() > 0 ==> without_lead(rows)[0].len() > 0,
        forall|i: int|
            0 <= i < rows.len() - without_lead(rows).len() ==> (#[trigger] rows[i]).len() == 0,
    decreases rows.len(),
{
    if rows.len() > 0 && rows[0].len() == 0 {
        let rest = rows.skip(1);
        lemma_without_lead(rest);
        let n = without_lead(rows).len();
        assert(rest.skip(rest.len() - n) =~= rows.skip(rows.len() - n));
        assert forall|i: int| 0 <= i < rows.len() - n implies (#[trigger] rows[i]).len() == 0 by {
            if i > 0 {
                assert(rest[i - 1] == rows[i]);
            }
        }
    } else {
        assert(rows.skip(0) =~= rows);
    }
}

proof fn lemma_without_tail(rows: Seq<Seq<char>>)
    ensures
        without_tail(rows).len() <= rows.len(),
        without_tail(rows) == rows.take(without_tail(rows).len() as int),
        without_tail(rows).len() > 0 ==> without_tail(rows).last().len() > 0,
        forall|i: int|
            without_tail(rows).len() <= i < rows.len() ==> (#[trigger] rows[i]).len() == 0,
        rows.len() > 0 && rows[0].len() > 0 ==> without_tail(rows).len() > 0,
    decreases rows.len(),
{
    if rows.len() > 0 && rows.last().len() == 0 {
        let rest = rows.drop_last();
        lemma_without_tail(rest);
        let n = without_tail(rows).len() as int;
        assert(rest.take(n) =~= rows.take(n));
        assert forall|i: int| n <= i < rows.len() implies (#[trigger] rows[i]).len() == 0 by {
            if i < rows.len() - 1 {
                assert(rest[i] == rows[i]);
            }
        }
    } else {
        assert(rows.take(rows.len() as int) =~= rows);
    }
}

proof fn lemma_run_is(s: Seq<char>, c: char)
    ensures
        leading_run(s, c) <= s.len(),
        forall|k: int| 0 <= k < leading_run(s, c) ==> #[trigger] s[k] == c,
        leading_run(s, c) < s.len() ==> s[leading_run(s, c) as int] != c,
    decreases s.len(),
{
    if s.len() > 0 && s[0] == c {
        lemma_run_is(s.skip(1), c);
        assert forall|k: int| 0 <= k < leading_run(s, c) implies #[trigger] s[k] == c by {
            if k > 0 {
                assert(s.skip(1)[k - 1] == s[k]);
            }
        }
    }
}

/// Whether a row, unless it is empty, starts with so many spaces.
spec fn starts_blank(row: Seq<char>, n: int) -> bool {
    row.len() > 0 ==> n <= row.len() && forall|k: int| 0 <= k < n ==> #[trigger] row[k] == ' '
}

proof fn lemma_shared_indent(rows: Seq<Seq<char>>)
    requires
        rows.len() > 0,
        rows[0].len() > 0,
    ensures
        forall|i: int|
            0 <= i < rows.len() ==> starts_blank(#[trigger] rows[i], shared_indent(rows) as int),
        exists|i: int|
            0 <= i < rows.len() && (#[trigger] rows[i]).len() > 0 && leading_run(rows[i], ' ')
                == shared_indent(rows),
    decreases rows.len(),
{
    let n = rows.len() - 1;
    lemma_run_is(rows[n], ' ');
    if n == 0 {
        assert(rows[0].len() > 0);
    } else {
        let rest = rows.drop_last();
        assert(rest[0] == rows[0]);
        lemma_shared_indent(rest);
        let j = choose|i: int|
            0 <= i < rest.len() && (#[trigger] rest[i]).len() > 0 && leading_run(rest[i], ' ')
                == shared_indent(rest);
        assert(rows[j] == rest[j]);
        assert forall|i: int| 0 <= i < rows.len() implies starts_blank(
            #[trigger] rows[i],
            shared_indent(rows) as int,
        ) by {
            if i < n {
                assert(rest[i] == rows[i]);
                assert(starts_blank(rest[i], shared_indent(rest) as int));
            }
        }
        if rows[n].len() > 0 && leading_run(rows[n], ' ') == shared_indent(rows) {
        } else {
            assert(rows[j].len() > 0);
        }
    }
}

/// A board written out as text keeps what was drawn and where it stands to
/// each other, and nothing of the space around it: it is cut out of the drawn
/// rows as one piece, from a first row and a first column on. All that is left
/// out is blank, no row ends in space, the first and the last row are not
/// empty, and some row starts at the very left.
pub proof fn lemma_written_board_is_cut_out(rows: Seq<Seq<char>>)
    requires
        drawn_rows(rows).len() > 0,
    ensures
        ({
            let shown = drawn_rows(rows);
            let left = shared_indent(shown) as int;
            let out = outdented(shown, left);
            exists|top: int|
                0 <= top && #[trigger] is_cut_out(rows, out, top, left)
        }),
        ({
            let shown = drawn_rows(rows);
            let out = outdented(shown, shared_indent(shown) as int);
            &&& out[0].len() > 0 && out.last().len() > 0
            &&& forall|i: int|
                0 <= i < out.len() && (#[trigger] out[i]).len() > 0 ==> !is_space(out[i].last())
            &&& exists|i: int|
                0 <= i < out.len() && (#[trigger] out[i]).len() > 0 && out[i][0] != ' '
        }),
{
    let trimmed = trimmed_rows(rows);
    let led = without_lead(trimmed);
    let shown = drawn_rows(rows);
    lemma_without_lead(trimmed);
    lemma_without_tail(led);
    let top = rows.len() - led.len();
    assert(led.len() > 0);
    assert(shown[0] == led[0]);
    lemma_shared_indent(shown);
    let left = shared_indent(shown) as int;
    let out = outdented(shown, left);
    assert forall|i: int| 0 <= i < shown.len() implies #[trigger] shown[i] == trim_end(
        rows[top + i],
    ) by {
        assert(shown[i] == led[i]);
        assert(led[i] == trimmed[top + i]);
    }
    assert forall|i: int| 0 <= i < out.len() && (#[trigger] shown[i]).len() > 0 implies out[i].len()
        > 0 && out[i] == shown[i].skip(left) by {
        lemma_trim_end_is(rows[top + i]);
        lemma_run_is(shown[i], ' ');
        assert(starts_blank(shown[i], left));
        if shown[i].len() <= left {
            assert(shown[i][shown[i].len() - 1] == ' ');
            assert(false);
        }
    }
    assert forall|i: int| 0 <= i < out.len() && (#[trigger] out[i]).len() > 0 implies !is_space(
        out[i].last(),
    ) by {
        lemma_trim_end_is(rows[top + i]);
        assert(shown[i].len() > 0);
    }
    let j = choose|i: int|
        0 <= i < shown.len() && (#[trigger] shown[i]).len() > 0 && leading_run(shown[i], ' ')
            == shared_indent(shown);
    lemma_run_is(shown[j], ' ');
    assert(out[j].len() > 0 && out[j][0] != ' ');
    assert(shown[shown.len() - 1].len() > 0);
    assert forall|i: int| 0 <= i < rows.len() implies #[trigger] row_cut_out(
        rows,
        out,
        top,
        left,
        i,
    ) by {
        lemma_trim_end_is(rows[i]);
        if i < top {
            assert(trimmed[i].len() == 0);
        } else if i >= top + out.len() {
            assert(led[i - top].len() == 0);
            assert(led[i - top] == trimmed[i]);
        } else {
            assert(shown[i - top] == trim_end(rows[top + (i - top)]));
            if shown[i - top].len() > 0 {
                assert(out[i - top] == shown[i - top].skip(left));
                assert forall|k: int| 0 <= k < left implies k < rows[i].len()
                    && #[trigger] rows[i][k] == ' ' by {
                    assert(starts_blank(shown[i - top], left));
                    assert(shown[i - top][k] == ' ');
                }
            }
        }
    }
    assert(is_cut_out(rows, out, top, left));
}

/// Whether one drawn row went into a piece: each character of the piece stands
/// in its place, and all others of the row are blank.
pub open spec fn row_cut_out(
    rows: Seq<Seq<char>>,
    out: Seq<Seq<char>>,
    top: int,
    left: int,
    i: int,
) -> bool {
    let n = if top <= i < top + out.len() {
        out[i - top].len() as int
    } else {
        0
    };
    &&& n > 0 ==> left + n <= rows[i].len()
    &&& forall|k: int| 0 <= k < n ==> #[trigger] out[i - top][k] == rows[i][left + k]
    &&& forall|k: int|
        0 <= k < rows[i].len() && (n == 0 || !(left <= k < left + n)) ==> is_space(
            #[trigger] rows[i][k],
        )
}

/// Whether some rows are cut out of drawn rows as one piece, and all that is
/// left out is blank.
pub open spec fn is_cut_out(
    rows: Seq<Seq<char>>,
    out: Seq<Seq<char>>,
    top: int,
    left: int,
) -> bool {
    &&& top + out.len() <= rows.len()
    &&& forall|i: int| 0 <= i < rows.len() ==> #[trigger] row_cut_out(rows, out, top, left, i)
}

/// The measures of a board, in cells: the least size of a box, the gaps of a
/// layout, the margin of a written board, the least width of a column and how
/// far a row of an outline is set in. A double click is one within 400
/// milliseconds, and the last hundred changes can be undone.
pub proof fn lemma_measures()
    ensures
        MIN_W == 5 && MIN_H == 3,
        GAP_X == 6 && GAP_Y == 2 && COMPONENT_GAP == 4,
        MARGIN == 4,
        MIN_COL_WIDTH == 3,
        INDENT == 2,
        DOUBLE_CLICK == 400 * 1_000_000,
        UNDO_LIMIT == 100,
{
}

} // verus!

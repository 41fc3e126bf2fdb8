//! What adding and taking out rows and columns does to a table that is being
//! edited, and where the cursor goes.

use vstd::prelude::*;

use crate::app::{AppView, ModeView, DOUBLE_CLICK};
use crate::editing::{all_reach, empty_row, with_col, without_col};
use crate::model::{KindView, NodeView};
use crate::table::{col_count, decoded, encoded, table_of, Cells};
use crate::target::{SelectedView, TableOp};

verus! {

/// Whether every row of a table has as many cells as the first.
pub open spec fn even_rows(t: Cells) -> bool {
    forall|i: int| 0 <= i < t.len() ==> (#[trigger] t[i]).len() == t[0].len()
}

/// A table with what is being typed in its place: what the cell under the
/// cursor holds is the text typed so far, line breaks written out, and every
/// other cell is as it was.
pub open spec fn typed_in(a: AppView, row: int, col: int, t: Cells) -> bool {
    &&& t.len() == a.table.len()
    &&& forall|i: int| 0 <= i < t.len() ==> (#[trigger] t[i]).len() == a.table[i].len()
    &&& forall|i: int, j: int|
        0 <= i < t.len() && 0 <= j < t[i].len() ==> #[trigger] t[i][j] == if i == row && j == col {
            encoded(a.editing_text)
        } else {
            a.table[i][j]
        }
}

/// A change of the cursor changes the cursor, the text to type into and, to
/// make room, the size of a box: the grid stays as it is, and the text is
/// that of the cell, its line breaks read.
proof fn lemma_gone_to(a: AppView, id: Seq<char>, row: usize, col: usize)
    requires
        row < a.table.len(),
        col < a.table[row as int].len(),
    ensures
        ({
            let b = a.gone_to(id, row, col);
            &&& b.table == a.table
            &&& b.mode == ModeView::EditingCell(id, row, col)
            &&& b.editing_text == decoded(a.table[row as int][col as int])
        }),
{
    reveal(AppView::applied);
}

proof fn lemma_synced(a: AppView, row: usize, col: usize)
    requires
        row < a.table.len(),
        col < a.table[row as int].len(),
    ensures
        typed_in(a, row as int, col as int, a.synced(row as int, col as int).table),
{
}

/// Deleting the row under the cursor takes out that row and no other: the
/// rows above it stay, those below move up by one, and the cursor stays in
/// its column, on the row that moved up or, where there is none, on the last.
/// The header stays, and so does the last row below it.
pub proof fn lemma_deleted_row_is_the_one_under_the_cursor(
    a: AppView,
    id: Seq<char>,
    row: usize,
    col: usize,
    t: Cells,
)
    requires
        row < a.table.len(),
        col < a.table[row as int].len(),
        even_rows(a.table),
        typed_in(a, row as int, col as int, t),
    ensures
        ({
            let b = a.row_deleted(id, row, col);
            let goes = row > 0 && a.table.len() > 2;
            &&& goes ==> {
                &&& b.table.len() == t.len() - 1
                &&& forall|i: int| 0 <= i < row ==> #[trigger] b.table[i] == t[i]
                &&& forall|i: int|
                    row <= i < b.table.len() ==> #[trigger] b.table[i] == t[i + 1]
                &&& b.mode == ModeView::EditingCell(
                    id,
                    if row < t.len() - 1 {
                        row
                    } else {
                        (row - 1) as usize
                    },
                    col,
                )
            }
            &&& !goes ==> b.table == t && b.mode == ModeView::EditingCell(id, row, col)
        }),
{
    let s = a.synced(row as int, col as int);
    assert forall|i: int| 0 <= i < t.len() implies #[trigger] t[i] == s.table[i] by {
        assert(t[i] =~= s.table[i]);
    }
    assert(s.table =~= t);
    let u = if row != 0 && s.table.len() > 2 {
        s.table.remove(row as int)
    } else {
        s.table
    };
    let r = if row < u.len() - 1 {
        row
    } else {
        (u.len() - 1) as usize
    };
    assert(u[r as int].len() == t[row as int].len()) by {
        assert(t[row as int].len() == a.table[0].len());
        assert(t[r as int].len() == a.table[0].len());
        if row != 0 && s.table.len() > 2 && r >= row {
            assert(t[r + 1].len() == a.table[0].len());
        }
    }
    lemma_gone_to(AppView { table: u, ..s }, id, r, col);
}

/// A new row comes right below the cursor, with as many cells as the first
/// row has, all empty; the rows above it stay and those below move down by
/// one. The cursor goes to the new row, in its column.
pub proof fn lemma_inserted_row_is_below_the_cursor(
    a: AppView,
    id: Seq<char>,
    row: usize,
    col: usize,
    t: Cells,
)
    requires
        row < a.table.len() < usize::MAX,
        col < a.table[row as int].len(),
        even_rows(a.table),
        typed_in(a, row as int, col as int, t),
    ensures
        ({
            let b = a.row_inserted(id, row, col);
            &&& b.table.len() == t.len() + 1
            &&& forall|i: int| 0 <= i <= row ==> #[trigger] b.table[i] == t[i]
            &&& b.table[row + 1].len() == t[0].len()
            &&& forall|j: int|
                0 <= j < t[0].len() ==> (#[trigger] b.table[row + 1][j]).len() == 0
            &&& forall|i: int|
                row + 1 < i < b.table.len() ==> #[trigger] b.table[i] == t[i - 1]
            &&& b.mode == ModeView::EditingCell(id, (row + 1) as usize, col)
        }),
{
    let s = a.synced(row as int, col as int);
    assert forall|i: int| 0 <= i < t.len() implies #[trigger] t[i] == s.table[i] by {
        assert(t[i] =~= s.table[i]);
    }
    assert(s.table =~= t);
    let u = s.table.insert(row + 1, empty_row(col_count(s.table)));
    assert(t[0].len() == t[row as int].len());
    lemma_gone_to(AppView { table: u, ..s }, id, (row + 1) as usize, col);
}

/// Deleting the column under the cursor takes the cell of that column out of
/// every row: the cells left of it stay, those right of it move left by one.
/// The last column stays. The cursor stays in its row, on the column that
/// moved in or, where there is none, on the last.
pub proof fn lemma_deleted_col_is_the_one_under_the_cursor(
    a: AppView,
    id: Seq<char>,
    row: usize,
    col: usize,
    t: Cells,
)
    requires
        row < a.table.len(),
        col < a.table[row as int].len(),
        a.table[row as int].len() <= usize::MAX,
        even_rows(a.table),
        typed_in(a, row as int, col as int, t),
    ensures
        ({
            let b = a.col_deleted(id, row, col);
            let goes = t[0].len() > 1;
            &&& goes ==> {
                &&& b.table.len() == t.len()
                &&& forall|i: int|
                    0 <= i < t.len() ==> (#[trigger] b.table[i]).len() == t[i].len() - 1
                &&& forall|i: int, j: int|
                    0 <= i < t.len() && 0 <= j < col ==> #[trigger] b.table[i][j] == t[i][j]
                &&& forall|i: int, j: int|
                    0 <= i < t.len() && col <= j < t[i].len() - 1 ==> #[trigger] b.table[i][j]
                        == t[i][j + 1]
                &&& b.mode == ModeView::EditingCell(
                    id,
                    row,
                    if col < t[0].len() - 1 {
                        col
                    } else {
                        (col - 1) as usize
                    },
                )
            }
            &&& !goes ==> b.table == t && b.mode == ModeView::EditingCell(id, row, col)
        }),
{
    let s = a.synced(row as int, col as int);
    assert forall|i: int| 0 <= i < t.len() implies #[trigger] t[i] == s.table[i] by {
        assert(t[i] =~= s.table[i]);
    }
    assert(s.table =~= t);
    assert(t[row as int].len() == a.table[0].len());
    assert(t[0].len() == a.table[0].len());
    let u = if col_count(s.table) > 1 {
        without_col(s.table, col as int)
    } else {
        s.table
    };
    assert forall|i: int| 0 <= i < t.len() implies (#[trigger] t[i]).len() == t[0].len() by {
        assert(t[i].len() == a.table[i].len());
    }
    let c = if col < u[0].len() - 1 {
        col
    } else {
        (u[0].len() - 1) as usize
    };
    assert(u[row as int].len() == u[0].len());
    lemma_gone_to(AppView { table: u, ..s }, id, row, c);
}

/// A new column comes right behind the cursor, empty in every row: the cells
/// up to the cursor stay, those behind it move right by one. The cursor goes
/// to the new column, in its row.
pub proof fn lemma_inserted_col_is_behind_the_cursor(
    a: AppView,
    id: Seq<char>,
    row: usize,
    col: usize,
    t: Cells,
)
    requires
        row < a.table.len(),
        col < a.table[row as int].len() < usize::MAX,
        even_rows(a.table),
        typed_in(a, row as int, col as int, t),
    ensures
        ({
            let b = a.col_inserted(id, row, col);
            &&& b.table.len() == t.len()
            &&& forall|i: int|
                0 <= i < t.len() ==> (#[trigger] b.table[i]).len() == t[i].len() + 1
            &&& forall|i: int, j: int|
                0 <= i < t.len() && 0 <= j <= col ==> #[trigger] b.table[i][j] == t[i][j]
            &&& forall|i: int|
                0 <= i < t.len() ==> (#[trigger] b.table[i][col + 1]).len() == 0
            &&& forall|i: int, j: int|
                0 <= i < t.len() && col + 1 < j <= t[i].len() ==> #[trigger] b.table[i][j]
                    == t[i][j - 1]
            &&& b.mode == ModeView::EditingCell(id, row, (col + 1) as usize)
        }),
{
    let s = a.synced(row as int, col as int);
    assert forall|i: int| 0 <= i < t.len() implies #[trigger] t[i] == s.table[i] by {
        assert(t[i] =~= s.table[i]);
    }
    assert(s.table =~= t);
    assert forall|i: int| 0 <= i < t.len() implies (#[trigger] t[i]).len() == t[row as int].len() by {
        assert(t[i].len() == a.table[i].len());
        assert(t[row as int].len() == a.table[row as int].len());
    }
    assert(all_reach(s.table, col as int));
    let u = with_col(s.table, col + 1);
    lemma_gone_to(AppView { table: u, ..s }, id, row, (col + 1) as usize);
}

/// What was typed is in its cell, line breaks written out, once the cursor
/// has moved on, and every other cell is as it was. An arrow key goes to the
/// next cell and stops at the edge of the grid.
pub proof fn lemma_arrow_goes_to_the_next_cell(
    a: AppView,
    id: Seq<char>,
    row: usize,
    col: usize,
    dr: int,
    dc: int,
    t: Cells,
)
    requires
        row < a.table.len() <= usize::MAX,
        col < a.table[row as int].len() <= usize::MAX,
        even_rows(a.table),
        typed_in(a, row as int, col as int, t),
        -1 <= dr <= 1,
        -1 <= dc <= 1,
    ensures
        ({
            let b = a.stepped(id, row, col, dr, dc);
            let r = if 0 <= row + dr < t.len() {
                row + dr
            } else {
                row as int
            };
            let c = if 0 <= col + dc < t[0].len() {
                col + dc
            } else {
                col as int
            };
            &&& b.table == t
            &&& b.mode == ModeView::EditingCell(id, r as usize, c as usize)
            &&& b.editing_text == decoded(t[r][c])
        }),
{
    let s = a.synced(row as int, col as int);
    assert forall|i: int| 0 <= i < t.len() implies #[trigger] t[i] == s.table[i] by {
        assert(t[i] =~= s.table[i]);
    }
    assert(s.table =~= t);
    assert(t[0].len() == a.table[0].len() && a.table[row as int].len() == a.table[0].len());
    let r = if 0 <= row + dr < t.len() {
        row + dr
    } else {
        row as int
    };
    let c = if 0 <= col + dc < t[0].len() {
        col + dc
    } else {
        col as int
    };
    assert(t[r].len() == a.table[r].len());
    lemma_gone_to(s, id, r as usize, c as usize);
}

/// Tab goes to the next cell of the row, and from the last one to the first
/// of the next row. Where there is no next row it adds one, all empty.
pub proof fn lemma_tab_goes_across(
    a: AppView,
    id: Seq<char>,
    row: usize,
    col: usize,
    t: Cells,
)
    requires
        row < a.table.len() < usize::MAX,
        col < a.table[row as int].len() < usize::MAX,
        even_rows(a.table),
        typed_in(a, row as int, col as int, t),
    ensures
        ({
            let b = a.tabbed(id, row, col, false);
            if col + 1 < t[0].len() {
                b.table == t && b.mode == ModeView::EditingCell(id, row, (col + 1) as usize)
            } else {
                &&& b.mode == ModeView::EditingCell(id, (row + 1) as usize, 0)
                &&& row + 1 < t.len() ==> b.table == t
                &&& row + 1 == t.len() ==> {
                    &&& b.table.len() == t.len() + 1
                    &&& forall|i: int| 0 <= i < t.len() ==> #[trigger] b.table[i] == t[i]
                    &&& b.table[row + 1].len() == t[0].len()
                    &&& forall|j: int|
                        0 <= j < t[0].len() ==> (#[trigger] b.table[row + 1][j]).len() == 0
                }
            }
        }),
        ({
            let b = a.tabbed(id, row, col, true);
            &&& b.table == t
            &&& b.mode == if col > 0 {
                ModeView::EditingCell(id, row, (col - 1) as usize)
            } else if row > 0 {
                ModeView::EditingCell(id, (row - 1) as usize, (t[0].len() - 1) as usize)
            } else {
                ModeView::EditingCell(id, 0, 0)
            }
        }),
{
    let s = a.synced(row as int, col as int);
    assert forall|i: int| 0 <= i < t.len() implies #[trigger] t[i] == s.table[i] by {
        assert(t[i] =~= s.table[i]);
    }
    assert(s.table =~= t);
    assert forall|i: int| 0 <= i < t.len() implies (#[trigger] t[i]).len() == t[0].len() by {
        assert(t[i].len() == a.table[i].len());
        assert(t[0].len() == a.table[0].len());
    }
    assert(t[row as int].len() == t[0].len());
    if col + 1 < t[0].len() {
        lemma_gone_to(s, id, row, (col + 1) as usize);
    } else {
        let n = s.with_next_row(row);
        lemma_gone_to(n, id, (row + 1) as usize, 0);
    }
    if col > 0 {
        lemma_gone_to(s, id, row, (col - 1) as usize);
    } else if row > 0 {
        assert(t[row - 1].len() == t[0].len());
        lemma_gone_to(s, id, (row - 1) as usize, (t[0].len() - 1) as usize);
    } else {
        lemma_gone_to(s, id, row, col);
    }
}

/// Enter goes down in the same column, and adds an empty row where there is
/// none.
pub proof fn lemma_enter_goes_down(
    a: AppView,
    id: Seq<char>,
    row: usize,
    col: usize,
    t: Cells,
)
    requires
        row < a.table.len() < usize::MAX,
        col < a.table[row as int].len(),
        even_rows(a.table),
        typed_in(a, row as int, col as int, t),
    ensures
        ({
            let b = a.entered(id, row, col);
            &&& b.mode == ModeView::EditingCell(id, (row + 1) as usize, col)
            &&& row + 1 < t.len() ==> b.table == t
            &&& row + 1 == t.len() ==> {
                &&& b.table.len() == t.len() + 1
                &&& forall|i: int| 0 <= i < t.len() ==> #[trigger] b.table[i] == t[i]
                &&& b.table[row + 1].len() == t[0].len()
                &&& forall|j: int|
                    0 <= j < t[0].len() ==> (#[trigger] b.table[row + 1][j]).len() == 0
            }
        }),
{
    let s = a.synced(row as int, col as int);
    assert forall|i: int| 0 <= i < t.len() implies #[trigger] t[i] == s.table[i] by {
        assert(t[i] =~= s.table[i]);
    }
    assert(s.table =~= t);
    assert forall|i: int| 0 <= i < t.len() implies (#[trigger] t[i]).len() == t[0].len() by {
        assert(t[i].len() == a.table[i].len());
        assert(t[0].len() == a.table[0].len());
    }
    lemma_gone_to(s.with_next_row(row), id, (row + 1) as usize, col);
}

/// A box opens as the table that its text is, or as an empty one with a
/// header and a row, on the cell that is meant or the nearest to it. What is
/// typed starts as the text of that cell.
pub proof fn lemma_table_opens_on_its_cell(
    a: AppView,
    id: Seq<char>,
    node: NodeView,
    text: Seq<char>,
    row: usize,
    col: usize,
)
    requires
        a.canvas.node(id) == Some(node),
        node.kind == KindView::Text(text),
    ensures
        ({
            let b = a.begun_table(id, row, col);
            let t = b.table;
            &&& table_of(text) is Some ==> t == table_of(text)->0
            &&& table_of(text) is None ==> t.len() == 2 && t[0].len() == 1 && t[1].len() == 1
                && t[0][0].len() == 0 && t[1][0].len() == 0
            &&& b.mode matches ModeView::EditingCell(open, r, c) && {
                &&& open == id
                &&& row < t.len() ==> r == row
                &&& row >= t.len() && t.len() > 0 ==> r == t.len() - 1
                &&& col < col_count(t) ==> c == col
                &&& col >= col_count(t) && col_count(t) > 0 ==> c == col_count(t) - 1
                &&& r < t.len() && c < t[r as int].len() ==> b.editing_text == decoded(
                    t[r as int][c as int],
                )
            }
        }),
{
    reveal(AppView::applied);
}

/// A click on a cell of the table that is open goes there, with what was
/// typed kept in the cell that is left.
pub proof fn lemma_click_in_the_open_table(
    a: AppView,
    id: Seq<char>,
    r: usize,
    c: usize,
    row: usize,
    col: usize,
    now: u64,
)
    requires
        a.mode == ModeView::EditingCell(id, r, c),
        r < a.table.len(),
        c < a.table[r as int].len(),
    ensures
        ({
            let b = a.clicked_cell(id, row, col, now);
            &&& b.mode == ModeView::EditingCell(id, row, col)
            &&& typed_in(a, r as int, c as int, b.table)
            &&& row < b.table.len() && col < b.table[row as int].len() ==> b.editing_text
                == decoded(b.table[row as int][col as int])
        }),
{
    reveal(AppView::applied);
}

/// A click on a cell of a box whose table is not open selects the box. It
/// opens nothing where the click before it was on another thing or long ago.
pub proof fn lemma_click_on_a_closed_table(
    a: AppView,
    id: Seq<char>,
    row: usize,
    col: usize,
    now: u64,
)
    requires
        !(a.mode matches ModeView::EditingCell(open, _, _) && open == id),
    ensures
        ({
            let b = a.clicked_cell(id, row, col, now);
            let target = SelectedView::Node(id);
            &&& b.selected == Some(target)
            &&& b.last_click == Some((target, now))
            &&& (a.last_click is None || (a.last_click->0).0 != target || now >= (
            a.last_click->0).1 + DOUBLE_CLICK) ==> b.mode == a.mode && b.table == a.table
        }),
{
    reveal(AppView::applied);
}

/// The second click on a cell opens its box as a table on that cell.
pub proof fn lemma_double_click_opens_the_cell(
    a: AppView,
    id: Seq<char>,
    row: usize,
    col: usize,
    now: u64,
    at: u64,
    t: Cells,
    text: Seq<char>,
    node: NodeView,
)
    requires
        a.mode is Normal,
        a.last_click == Some((SelectedView::Node(id), at)),
        at <= now < at + DOUBLE_CLICK,
        a.canvas.node(id) == Some(node),
        node.kind == KindView::Text(text),
        table_of(text) == Some(t),
        row < t.len(),
        col < col_count(t),
    ensures
        a.clicked_cell(id, row, col, now).mode == ModeView::EditingCell(id, row, col),
        a.clicked_cell(id, row, col, now).table == t,
{
    reveal(AppView::applied);
}

/// A button of the open table does what it says at the open cell: it adds a
/// column behind it or a row below it, or takes its column or row out.
pub proof fn lemma_button_changes_the_table(
    a: AppView,
    id: Seq<char>,
    op: TableOp,
    row: usize,
    col: usize,
    t: Cells,
    i: int,
    j: int,
)
    requires
        a.mode == ModeView::EditingCell(id, row, col),
        row < a.table.len() < usize::MAX,
        col < a.table[row as int].len() < usize::MAX,
        even_rows(a.table),
        typed_in(a, row as int, col as int, t),
        0 <= i < t.len(),
        0 <= j < t[i].len(),
    ensures
        ({
            let b = a.clicked_op(id, op).table;
            match op {
                TableOp::AddRow => b.len() == t.len() + 1 && b[if i <= row {
                    i
                } else {
                    i + 1
                }] == t[i],
                TableOp::DelRow => row > 0 && t.len() > 2 ==> b.len() == t.len() - 1 && (i != row
                    ==> b[if i < row {
                    i
                } else {
                    i - 1
                }] == t[i]),
                TableOp::AddCol => b.len() == t.len() && b[i].len() == t[i].len() + 1
                    && b[i][if j <= col {
                    j
                } else {
                    j + 1
                }] == t[i][j],
                TableOp::DelCol => t[0].len() > 1 ==> b.len() == t.len() && b[i].len() == t[i].len()
                    - 1 && (j != col ==> b[i][if j < col {
                    j
                } else {
                    j - 1
                }] == t[i][j]),
            }
        }),
{
    match op {
        TableOp::AddRow => lemma_inserted_row_is_below_the_cursor(a, id, row, col, t),
        TableOp::DelRow => lemma_deleted_row_is_the_one_under_the_cursor(a, id, row, col, t),
        TableOp::AddCol => lemma_inserted_col_is_behind_the_cursor(a, id, row, col, t),
        TableOp::DelCol => lemma_deleted_col_is_the_one_under_the_cursor(a, id, row, col, t),
    }
}

} // verus!

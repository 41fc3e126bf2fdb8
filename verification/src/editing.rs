//! Typing into a box, a connector's label, or one cell of a table.

use vstd::prelude::*;

use crate::app::{App, AppView, Mode, ModeView, Request, RequestView, MIN_H};
use crate::geometry::{max, min};
use crate::model::{KindView, NodeKind, ShapeId, WorldRect};
use crate::table::{
    blank, cells, col_count, decode_break, decoded, encode_break, encoded, formatted, full_height,
    full_width, parse, render_size, table_of, Cells, Table,
};
use crate::target::{Selected, SelectedView};
use crate::text::{split, split_chars, to_chars, views};

verus! {

/// The rows that one line of `len` characters takes in a column `width`
/// wide, as a 16-bit count.
pub open spec fn line_rows(len: int, width: int) -> int {
    if len == 0 {
        1
    } else {
        ((len + width - 1) / width) % 65536
    }
}

/// The rows that some lines take in a column `width` wide.
pub open spec fn content_rows(ls: Seq<Seq<char>>, width: int) -> int
    decreases ls.len(),
{
    if ls.len() == 0 {
        0
    } else {
        content_rows(ls.drop_last(), width) + line_rows(ls.last().len() as int, width)
    }
}

/// How tall a box must be to show a text wrapped to `width` columns: its
/// rows and the border.
pub open spec fn text_height(text: Seq<char>, width: u16) -> int {
    max(content_rows(split(text, '\n'), max(width as int, 1)), 1) + 2
}

/// The width inside a box's border, at least one column.
pub open spec fn inner_width(width: u16) -> u16 {
    max(width - 2, 1) as u16
}

/// The empty text of a new cell.
pub open spec fn empty_cell() -> Seq<char> {
    Seq::empty()
}

/// Whether a table has a cell.
pub open spec fn has_cell(t: Cells, row: int, col: int) -> bool {
    row < t.len() && col < t[row].len()
}

/// The text of a cell, empty where the table has none.
pub open spec fn cell_at(t: Cells, row: int, col: int) -> Seq<char> {
    if has_cell(t, row, col) {
        t[row][col]
    } else {
        Seq::empty()
    }
}

/// A table with one cell replaced, where it has that cell.
pub open spec fn patched(t: Cells, row: int, col: int, cell: Seq<char>) -> Cells {
    if has_cell(t, row, col) {
        t.update(row, t[row].update(col, cell))
    } else {
        t
    }
}

/// A row of `cols` empty cells.
pub open spec fn empty_row(cols: nat) -> Seq<Seq<char>> {
    Seq::new(cols, |i: int| empty_cell())
}

/// A table with an empty column put before column `at`.
pub open spec fn with_col(t: Cells, at: int) -> Cells {
    Seq::new(t.len(), |i: int| t[i].insert(at, empty_cell()))
}

/// A table without column `at`.
pub open spec fn without_col(t: Cells, at: int) -> Cells {
    Seq::new(t.len(), |i: int| t[i].remove(at))
}

/// Whether every row of a table reaches past a column.
pub open spec fn all_reach(t: Cells, col: int) -> bool {
    forall|i: int| 0 <= i < t.len() ==> col < (#[trigger] t[i]).len()
}

impl AppView {
    /// Where a row of the board is on the screen.
    pub open spec fn screen_y(self, y: i32) -> int {
        y - self.camera.1 + self.area.y
    }

    /// Whether a text shown in a box takes rows that can be counted.
    pub open spec fn text_fits(self, id: Seq<char>, text: Seq<char>) -> bool {
        self.canvas.has_node(id) ==> text_height(
            text,
            inner_width(self.canvas.node(id)->0.rect.width),
        ) <= u16::MAX
    }

    /// The state with a box grown to show what is being typed. A box grows
    /// down to the bottom of the canvas and never shrinks.
    pub open spec fn grown(self, id: Seq<char>) -> AppView {
        match self.canvas.node(id) {
            None => self,
            Some(node) => {
                let r = node.rect;
                let needed = text_height(self.editing_text, inner_width(r.width));
                if needed <= r.height {
                    self
                } else {
                    let room = max(self.area.y_end() - self.screen_y(r.y), MIN_H as int);
                    let h = max(r.height as int, min(needed, room));
                    self.dispatched(
                        RequestView::SetRect { id, x: r.x, y: r.y, w: r.width, h: h as u16 },
                    ).0
                }
            },
        }
    }

    /// The state with a table box grown so that the grid has room for every
    /// column and row, what is being typed included.
    pub open spec fn grown_table(self, id: Seq<char>, row: int, col: int) -> AppView {
        match self.canvas.node(id) {
            None => self,
            Some(node) => {
                let r = node.rect;
                let t = patched(self.table, row, col, encoded(self.editing_text));
                let w = max((full_width(t) % 65536) as int, r.width as int);
                let h = max((full_height(t) % 65536) as int, r.height as int);
                if w == r.width && h == r.height {
                    self
                } else {
                    self.dispatched(
                        RequestView::SetRect { id, x: r.x, y: r.y, w: w as u16, h: h as u16 },
                    ).0
                }
            },
        }
    }

    /// The state with what was typed put back into its cell.
    pub open spec fn synced(self, row: int, col: int) -> AppView {
        if has_cell(self.table, row, col) {
            AppView {
                table: patched(self.table, row, col, encoded(self.editing_text)),
                editing_text: Seq::empty(),
                ..self
            }
        } else {
            self
        }
    }

    /// The state with a cell open to type into.
    pub open spec fn gone_to(self, id: Seq<char>, row: usize, col: usize) -> AppView {
        let loaded = AppView {
            editing_text: decoded(cell_at(self.table, row as int, col as int)),
            ..self
        };
        AppView {
            mode: ModeView::EditingCell(id, row, col),
            ..loaded.grown_table(id, row as int, col as int)
        }
    }

    /// The state after what is being edited is written back.
    pub open spec fn committed(self) -> AppView {
        match self.mode {
            ModeView::Normal => self,
            ModeView::Editing(target) => {
                let taken = AppView { editing_text: Seq::empty(), ..self };
                let done = match target {
                    SelectedView::Node(id) => taken.dispatched(
                        RequestView::SetText { id, text: self.editing_text },
                    ).0,
                    SelectedView::Edge(id) => taken.dispatched(
                        RequestView::SetLabel { id, label: Some(self.editing_text) },
                    ).0,
                };
                AppView { mode: ModeView::Normal, ..done }
            },
            ModeView::EditingCell(id, row, col) => {
                let synced = self.synced(row as int, col as int);
                let text = formatted(synced.table);
                let done = (AppView { table: Seq::empty(), ..synced }).dispatched(
                    RequestView::SetText { id, text },
                ).0;
                AppView { mode: ModeView::Normal, ..done }
            },
        }
    }

    /// The text that is loaded to edit a box or a connector.
    pub open spec fn text_of(self, target: SelectedView) -> Seq<char> {
        match target {
            SelectedView::Node(id) => match self.canvas.node(id) {
                Some(node) => match node.kind {
                    KindView::Text(t) => t,
                    _ => Seq::empty(),
                },
                None => Seq::empty(),
            },
            SelectedView::Edge(id) => match self.canvas.edge(id) {
                Some(edge) => match edge.label {
                    Some(l) => l,
                    None => Seq::empty(),
                },
                None => Seq::empty(),
            },
        }
    }

    /// The state with a box or connector open to type into.
    pub open spec fn begun(self, target: SelectedView) -> AppView {
        AppView {
            editing_text: self.text_of(target),
            mode: ModeView::Editing(target),
            ..self
        }
    }

    /// The state with a box open as a table, on the given cell or the
    /// nearest one that it has. A box that holds no text stays as it is.
    pub open spec fn begun_table(self, id: Seq<char>, row: usize, col: usize) -> AppView {
        match self.canvas.node(id) {
            Some(node) => match node.kind {
                KindView::Text(text) => {
                    let t = match table_of(text) {
                        Some(t) => t,
                        None => seq![seq![empty_cell()], seq![empty_cell()]],
                    };
                    let r = min(row as int, max(t.len() - 1, 0));
                    let c = min(col as int, max(col_count(t) - 1, 0));
                    (AppView { table: t, ..self }).gone_to(id, r as usize, c as usize)
                },
                _ => self,
            },
            None => self,
        }
    }

    /// Whether a step from a cell can be taken: there is a grid to walk.
    pub open spec fn has_grid(self) -> bool {
        self.table.len() > 0 && col_count(self.table) > 0
    }

    /// Whether the open cell lies in the grid, in every row of it.
    pub open spec fn in_grid(self, row: usize, col: usize) -> bool {
        row < self.table.len() && all_reach(self.table, col as int)
    }

    /// Tab: across, wrapping to the next or previous row. Past the last
    /// cell of the last row the table grows by a row.
    pub open spec fn tabbed(self, id: Seq<char>, row: usize, col: usize, backward: bool) -> AppView {
        let s = self.synced(row as int, col as int);
        let cols = col_count(s.table);
        if backward {
            if col > 0 {
                s.gone_to(id, row, (col - 1) as usize)
            } else if row > 0 {
                s.gone_to(id, (row - 1) as usize, max(cols - 1, 0) as usize)
            } else {
                s.gone_to(id, row, col)
            }
        } else if col + 1 >= cols {
            s.with_next_row(row).gone_to(id, (row + 1) as usize, 0)
        } else {
            s.gone_to(id, row, (col + 1) as usize)
        }
    }

    /// The state with an empty row at the end of the table where there is
    /// none after `row`.
    pub open spec fn with_next_row(self, row: usize) -> AppView {
        if row + 1 >= self.table.len() {
            AppView { table: self.table.push(empty_row(col_count(self.table))), ..self }
        } else {
            self
        }
    }

    /// Enter: down in the same column, growing a row at the end.
    pub open spec fn entered(self, id: Seq<char>, row: usize, col: usize) -> AppView {
        self.synced(row as int, col as int).with_next_row(row).gone_to(id, (row + 1) as usize, col)
    }

    /// Arrow keys: to the next cell, kept inside the grid.
    pub open spec fn stepped(self, id: Seq<char>, row: usize, col: usize, dr: int, dc: int) -> AppView {
        let s = self.synced(row as int, col as int);
        let r = max(min(row + dr, s.table.len() - 1), 0);
        let c = max(min(col + dc, col_count(s.table) - 1), 0);
        s.gone_to(id, r as usize, c as usize)
    }

    pub open spec fn col_inserted(self, id: Seq<char>, row: usize, col: usize) -> AppView {
        let s = self.synced(row as int, col as int);
        (AppView { table: with_col(s.table, col + 1), ..s }).gone_to(id, row, (col + 1) as usize)
    }

    /// The last column stays: there is always one to type into.
    pub open spec fn col_deleted(self, id: Seq<char>, row: usize, col: usize) -> AppView {
        let s = self.synced(row as int, col as int);
        let t = if col_count(s.table) > 1 {
            without_col(s.table, col as int)
        } else {
            s.table
        };
        (AppView { table: t, ..s }).gone_to(id, row, min(col as int, col_count(t) - 1) as usize)
    }

    pub open spec fn row_inserted(self, id: Seq<char>, row: usize, col: usize) -> AppView {
        let s = self.synced(row as int, col as int);
        let t = s.table.insert(row + 1, empty_row(col_count(s.table)));
        (AppView { table: t, ..s }).gone_to(id, (row + 1) as usize, col)
    }

    /// The header stays, and so does the last data row.
    pub open spec fn row_deleted(self, id: Seq<char>, row: usize, col: usize) -> AppView {
        let s = self.synced(row as int, col as int);
        let t = if row != 0 && s.table.len() > 2 {
            s.table.remove(row as int)
        } else {
            s.table
        };
        (AppView { table: t, ..s }).gone_to(id, min(row as int, t.len() - 1) as usize, col)
    }
}

/// How tall a box needs to be to show `text` without clipping, wrapped to
/// `width` columns, plus the top and bottom border.
pub fn wrapped_height(text: &str, width: u16) -> (r: u16)
    requires
        text_height(text@, width) <= u16::MAX,
    ensures
        r == text_height(text@, width),
{
    let wide: usize = if width < 1 {
        1
    } else {
        width as usize
    };
    let v: Vec<char> = to_chars(text);
    let n: usize = v.len();
    let ls: Vec<Vec<char>> = split_chars(&v, 0, n, '\n');
    let ghost all = split(text@, '\n');
    let mut rows: u16 = 0;
    let mut i: usize = 0;
    proof {
        assert(v@.subrange(0, n as int) =~= text@);
    }
    while i < ls.len()
        invariant
            i <= ls@.len(),
            all.len() == ls@.len(),
            forall|k: int| 0 <= k < all.len() ==> #[trigger] all[k] == ls@[k]@,
            wide == max(width as int, 1),
            content_rows(all, wide as int) + 2 <= u16::MAX,
            rows == content_rows(all.take(i as int), wide as int),
        decreases ls@.len() - i,
    {
        let len: usize = ls[i].len();
        proof {
            assert(all.take(i + 1).drop_last() =~= all.take(i as int));
            lemma_rows_grow(all, wide as int, i + 1);
            lemma_rows_grow(all, wide as int, i as int);
            assert(all[i as int].len() == len);
        }
        let more: u16 = if len == 0 {
            1
        } else {
            let up: usize = (len - 1) / wide;
            proof {
                assert((len + wide - 1) / (wide as int) == (len - 1) / (wide as int) + 1) by {
                    vstd::arithmetic::div_mod::lemma_hoist_over_denominator(
                        len - 1,
                        1,
                        wide as nat,
                    );
                };
            }
            ((up as u128 + 1) % 65536) as u16
        };
        proof {
            assert(more == line_rows(len as int, wide as int));
        }
        rows = rows + more;
        i += 1;
    }
    proof {
        assert(all.take(all.len() as int) =~= all);
    }
    if rows < 1 {
        3
    } else {
        rows + 2
    }
}

proof fn lemma_rows_grow(ls: Seq<Seq<char>>, width: int, k: int)
    requires
        0 <= k <= ls.len(),
        width > 0,
    ensures
        0 <= content_rows(ls.take(k), width) <= content_rows(ls, width),
    decreases ls.len(),
{
    if ls.len() == 0 {
        assert(ls.take(k) =~= ls);
    } else if k == ls.len() {
        assert(ls.take(k) =~= ls);
        lemma_rows_grow(ls.drop_last(), width, k - 1);
        assert(ls.drop_last().take(k - 1) =~= ls.drop_last());
    } else {
        lemma_rows_grow(ls.drop_last(), width, k);
        assert(ls.drop_last().take(k) =~= ls.take(k));
    }
}

/// Replaces a cell where the table has it.
pub fn patch(t: &mut Table, row: usize, col: usize, cell: String)
    ensures
        cells(final(t)@) == patched(cells(old(t)@), row as int, col as int, cell@),
{
    let ghost before = cells(t@);
    let ghost shown = cell@;
    if row < t.len() && col < t[row].len() {
        t[row].set(col, cell);
        proof {
            assert(views(t@[row as int]@) =~= before[row as int].update(col as int, shown));
            assert(cells(t@) =~= patched(before, row as int, col as int, shown));
        }
    }
}

/// A copy of a table.
pub fn clone_table(t: &Table) -> (r: Table)
    ensures
        cells(r@) == cells(t@),
{
    let mut out: Table = Vec::new();
    let mut i: usize = 0;
    while i < t.len()
        invariant
            i <= t@.len(),
            out@.len() == i,
            forall|k: int| 0 <= k < i ==> (#[trigger] out@[k])@ == t@[k]@,
        decreases t@.len() - i,
    {
        out.push(crate::text::clone_strings(&t[i]));
        i += 1;
    }
    proof {
        assert(cells(out@) =~= cells(t@));
    }
    out
}

/// A row of `cols` empty cells.
fn new_row(cols: usize) -> (r: Vec<String>)
    ensures
        views(r@) == empty_row(cols as nat),
{
    let mut out: Vec<String> = Vec::new();
    while out.len() < cols
        invariant
            out@.len() <= cols,
            forall|k: int| 0 <= k < out@.len() ==> (#[trigger] out@[k])@ == empty_cell(),
        decreases cols - out@.len(),
    {
        let cell: String = String::new();
        proof {
            assert(cell@ =~= empty_cell());
        }
        out.push(cell);
    }
    proof {
        assert(views(out@) =~= empty_row(cols as nat));
    }
    out
}

/// Puts an empty column before column `at`.
fn insert_col(t: &mut Table, at: usize)
    requires
        forall|i: int| 0 <= i < old(t)@.len() ==> at <= (#[trigger] old(t)@[i])@.len(),
    ensures
        cells(final(t)@) == with_col(cells(old(t)@), at as int),
{
    let ghost before = t@;
    let mut i: usize = 0;
    while i < t.len()
        invariant
            i <= t@.len() == before.len(),
            forall|k: int| 0 <= k < before.len() ==> at <= (#[trigger] before[k])@.len(),
            forall|k: int|
                0 <= k < i ==> views((#[trigger] t@[k])@) == views(before[k]@).insert(
                    at as int,
                    empty_cell(),
                ),
            forall|k: int| i <= k < t@.len() ==> #[trigger] t@[k] == before[k],
        decreases t@.len() - i,
    {
        let cell: String = String::new();
        proof {
            assert(cell@ =~= empty_cell());
            assert(t@[i as int] == before[i as int]);
        }
        t[i].insert(at, cell);
        proof {
            assert(views(t@[i as int]@) =~= views(before[i as int]@).insert(
                at as int,
                empty_cell(),
            ));
        }
        i += 1;
    }
    proof {
        assert(cells(t@) =~= with_col(cells(before), at as int));
    }
}

/// Takes column `at` out.
fn remove_col(t: &mut Table, at: usize)
    requires
        forall|i: int| 0 <= i < old(t)@.len() ==> at < (#[trigger] old(t)@[i])@.len(),
    ensures
        cells(final(t)@) == without_col(cells(old(t)@), at as int),
{
    let ghost before = t@;
    let mut i: usize = 0;
    while i < t.len()
        invariant
            i <= t@.len() == before.len(),
            forall|k: int| 0 <= k < before.len() ==> at < (#[trigger] before[k])@.len(),
            forall|k: int|
                0 <= k < i ==> views((#[trigger] t@[k])@) == views(before[k]@).remove(at as int),
            forall|k: int| i <= k < t@.len() ==> #[trigger] t@[k] == before[k],
        decreases t@.len() - i,
    {
        proof {
            assert(t@[i as int] == before[i as int]);
        }
        let _cell: String = t[i].remove(at);
        proof {
            assert(views(t@[i as int]@) =~= views(before[i as int]@).remove(at as int));
        }
        i += 1;
    }
    proof {
        assert(cells(t@) =~= without_col(cells(before), at as int));
    }
}

impl App {
    /// Grows the box being edited so that text never runs past its bottom
    /// border. A box does not shrink back down as text is deleted.
    pub fn grow_to_fit(&mut self, id: &ShapeId)
        requires
            old(self)@.text_fits(id@, old(self)@.editing_text),
        ensures
            final(self)@ == old(self)@.grown(id@),
            final(self).maps_wf() == old(self).maps_wf(),
    {
        let rect: WorldRect = match self.canvas.node(id.as_str()) {
            None => {
                return;
            },
            Some(node) => node.rect,
        };
        let inner: u16 = if rect.width < 3 {
            1
        } else {
            rect.width - 2
        };
        let needed: u16 = wrapped_height(self.editing_text.as_str(), inner);
        if needed <= rect.height {
            return;
        }
        let screen_y: i64 = rect.y as i64 - self.camera.1 as i64 + self.canvas_area.y as i64;
        let mut room: i64 = self.canvas_area.bottom() as i64 - screen_y;
        if room < MIN_H as i64 {
            room = MIN_H as i64;
        }
        let mut h: i64 = needed as i64;
        if room < h {
            h = room;
        }
        if h < rect.height as i64 {
            h = rect.height as i64;
        }
        let _done = self.dispatch(
            Request::SetRect { id: id.clone(), x: rect.x, y: rect.y, w: rect.width, h: h as u16 },
        );
    }

    /// Grows the box being edited so that the grid always has room for
    /// every column and row, what is being typed included.
    pub fn table_grow_to_fit(&mut self, id: &ShapeId, row: usize, col: usize)
        ensures
            final(self)@ == old(self)@.grown_table(id@, row as int, col as int),
            final(self).maps_wf() == old(self).maps_wf(),
    {
        let rect: WorldRect = match self.canvas.node(id.as_str()) {
            None => {
                return;
            },
            Some(node) => node.rect,
        };
        let mut t: Table = clone_table(&self.editing_table);
        patch(&mut t, row, col, encode_break(self.editing_text.as_str()));
        let (needed_w, needed_h) = render_size(&t);
        let w: u16 = if needed_w < rect.width {
            rect.width
        } else {
            needed_w
        };
        let h: u16 = if needed_h < rect.height {
            rect.height
        } else {
            needed_h
        };
        if w == rect.width && h == rect.height {
            return;
        }
        let _done = self.dispatch(
            Request::SetRect { id: id.clone(), x: rect.x, y: rect.y, w, h },
        );
    }

    /// The rows and columns of the staged grid.
    fn table_dims(&self) -> (r: (usize, usize))
        ensures
            r.0 == self@.table.len(),
            r.1 == col_count(self@.table),
    {
        let rows: usize = self.editing_table.len();
        let cols: usize = if rows == 0 {
            0
        } else {
            self.editing_table[0].len()
        };
        (rows, cols)
    }

    /// Puts what was typed back into its cell.
    pub fn sync_cell(&mut self, row: usize, col: usize)
        ensures
            final(self)@ == old(self)@.synced(row as int, col as int),
            final(self).maps_wf() == old(self).maps_wf(),
    {
        let ghost before = self@;
        if row < self.editing_table.len() && col < self.editing_table[row].len() {
            let cell: String = encode_break(self.editing_text.as_str());
            self.editing_text = String::new();
            patch(&mut self.editing_table, row, col, cell);
            proof {
                assert(self.editing_text@ =~= Seq::empty());
                assert(self@ =~= before.synced(row as int, col as int));
            }
        }
    }

    /// Loads a cell to type into and makes it the live one.
    pub fn table_goto(&mut self, id: ShapeId, row: usize, col: usize)
        ensures
            final(self)@ == old(self)@.gone_to(id@, row, col),
            final(self).maps_wf() == old(self).maps_wf(),
    {
        let text: String = if row < self.editing_table.len() && col
            < self.editing_table[row].len() {
            decode_break(self.editing_table[row][col].as_str())
        } else {
            decode_break("")
        };
        proof {
            reveal_strlit("");
            assert(""@ =~= Seq::empty());
        }
        let ghost before = self@;
        self.editing_text = text;
        let ghost loaded = self@;
        proof {
            assert(loaded == (AppView {
                editing_text: decoded(cell_at(before.table, row as int, col as int)),
                ..before
            }));
        }
        self.table_grow_to_fit(&id, row, col);
        self.mode = Mode::EditingCell(id, row, col);
    }

    /// Writes what is being edited back and leaves the edit. Called before
    /// any new press is acted on, so that clicking away never loses it.
    pub fn commit_edit(&mut self)
        ensures
            final(self)@ == old(self)@.committed(),
            final(self).maps_wf() == old(self).maps_wf(),
    {
        let ghost before = self@;
        let mode: Mode = self.mode.clone();
        match mode {
            Mode::Normal => {
                return;
            },
            Mode::Editing(target) => {
                let text: String = self.editing_text.clone();
                self.editing_text = String::new();
                proof {
                    assert(self.editing_text@ =~= Seq::empty());
                    assert(self@ =~= (AppView { editing_text: Seq::empty(), ..before }));
                }
                match target {
                    Selected::Node(id) => {
                        let _done = self.dispatch(Request::SetText { id, text });
                    },
                    Selected::Edge(id) => {
                        let _done = self.dispatch(Request::SetLabel { id, label: Some(text) });
                    },
                }
            },
            Mode::EditingCell(id, row, col) => {
                self.sync_cell(row, col);
                let ghost synced = self@;
                let text: String = crate::table::format(&self.editing_table);
                self.editing_table = Vec::new();
                proof {
                    assert(cells(self.editing_table@) =~= Seq::empty());
                    assert(self@ =~= (AppView { table: Seq::empty(), ..synced }));
                }
                let _done = self.dispatch(Request::SetText { id, text });
            },
        }
        self.mode = Mode::Normal;
    }

    /// Opens a box or a connector to type into.
    pub fn begin_edit(&mut self, target: Selected)
        ensures
            final(self)@ == old(self)@.begun(target@),
            final(self).maps_wf() == old(self).maps_wf(),
    {
        let empty: String = String::new();
        proof {
            assert(empty@ =~= Seq::empty());
        }
        let text: String = match &target {
            Selected::Node(id) => match self.canvas.node(id.as_str()) {
                Some(node) => match &node.kind {
                    NodeKind::Text(t) => t.clone(),
                    _ => empty,
                },
                None => empty,
            },
            Selected::Edge(id) => match self.canvas.edge(id.as_str()) {
                Some(edge) => match &edge.label {
                    Some(l) => l.clone(),
                    None => empty,
                },
                None => empty,
            },
        };
        self.editing_text = text;
        self.mode = Mode::Editing(target);
    }

    /// Opens a box's content as a grid: parsed as a table if it is one, or
    /// a fresh blank one if it is not.
    pub fn begin_table_edit(&mut self, id: ShapeId)
        ensures
            final(self)@ == old(self)@.begun_table(id@, 0, 0),
            final(self).maps_wf() == old(self).maps_wf(),
    {
        self.begin_table_edit_at(id, 0, 0);
    }

    /// Opens a box's content as a grid on one cell.
    pub fn begin_table_edit_at(&mut self, id: ShapeId, row: usize, col: usize)
        ensures
            final(self)@ == old(self)@.begun_table(id@, row, col),
            final(self).maps_wf() == old(self).maps_wf(),
    {
        let ghost before = self@;
        let current: Option<String> = match self.canvas.node(id.as_str()) {
            Some(node) => match &node.kind {
                NodeKind::Text(t) => Some(t.clone()),
                _ => None,
            },
            None => None,
        };
        let text: String = match current {
            Some(t) => t,
            None => {
                return;
            },
        };
        self.editing_table = match parse(text.as_str()) {
            Some(t) => t,
            None => blank(),
        };
        let ghost loaded = self@;
        let (rows, cols) = self.table_dims();
        let last_row: usize = if rows > 0 {
            rows - 1
        } else {
            0
        };
        let last_col: usize = if cols > 0 {
            cols - 1
        } else {
            0
        };
        let r: usize = if row < last_row {
            row
        } else {
            last_row
        };
        let c: usize = if col < last_col {
            col
        } else {
            last_col
        };
        self.table_goto(id, r, c);
    }

    /// Adds an empty row at the end of the grid where there is none after
    /// `row`.
    fn table_next_row(&mut self, row: usize)
        ensures
            final(self)@ == old(self)@.with_next_row(row),
            final(self).maps_wf() == old(self).maps_wf(),
    {
        let ghost before = self@;
        let (rows, cols) = self.table_dims();
        if row >= rows || row + 1 >= rows {
            let more: Vec<String> = new_row(cols);
            let ghost shown = views(more@);
            self.editing_table.push(more);
            proof {
                assert(cells(self.editing_table@) =~= before.table.push(shown));
                assert(self@ =~= before.with_next_row(row));
            }
        }
    }

    /// `Tab` and `Shift+Tab`: across, wrapping to the next or previous row.
    /// Tabbing past the last cell of the last row grows the table by one
    /// row.
    pub fn table_tab(&mut self, id: ShapeId, row: usize, col: usize, backward: bool)
        requires
            row < usize::MAX,
            col < usize::MAX,
        ensures
            final(self)@ == old(self)@.tabbed(id@, row, col, backward),
            final(self).maps_wf() == old(self).maps_wf(),
    {
        self.sync_cell(row, col);
        let (_rows, cols) = self.table_dims();
        if backward {
            if col > 0 {
                self.table_goto(id, row, col - 1);
            } else if row > 0 {
                let last: usize = if cols > 0 {
                    cols - 1
                } else {
                    0
                };
                self.table_goto(id, row - 1, last);
            } else {
                self.table_goto(id, row, col);
            }
        } else if col + 1 >= cols {
            self.table_next_row(row);
            self.table_goto(id, row + 1, 0);
        } else {
            self.table_goto(id, row, col + 1);
        }
    }

    /// `Enter`: down within the same column, growing a new row at the end.
    pub fn table_enter(&mut self, id: ShapeId, row: usize, col: usize)
        requires
            row < usize::MAX,
        ensures
            final(self)@ == old(self)@.entered(id@, row, col),
            final(self).maps_wf() == old(self).maps_wf(),
    {
        self.sync_cell(row, col);
        self.table_next_row(row);
        self.table_goto(id, row + 1, col);
    }

    /// Arrow keys: one cell on, kept inside the grid, which never grows.
    pub fn table_move(&mut self, id: ShapeId, row: usize, col: usize, dr: i32, dc: i32)
        requires
            old(self)@.has_grid(),
            -1 <= dr <= 1,
            -1 <= dc <= 1,
        ensures
            final(self)@ == old(self)@.stepped(id@, row, col, dr as int, dc as int),
            final(self).maps_wf() == old(self).maps_wf(),
    {
        self.sync_cell(row, col);
        proof {
            assert(self@.table.len() == old(self)@.table.len());
            assert(self@.table[0].len() == old(self)@.table[0].len());
        }
        let (rows, cols) = self.table_dims();
        let r: usize = step(row, dr, rows);
        let c: usize = step(col, dc, cols);
        self.table_goto(id, r, c);
    }

    pub fn table_insert_col(&mut self, id: ShapeId, row: usize, col: usize)
        requires
            old(self)@.in_grid(row, col),
        ensures
            final(self)@ == old(self)@.col_inserted(id@, row, col),
            final(self).maps_wf() == old(self).maps_wf(),
    {
        let ghost before = self@;
        self.sync_cell(row, col);
        let ghost synced = self@;
        proof {
            assert(all_reach(synced.table, col as int));
            assert forall|i: int| 0 <= i < self.editing_table@.len() implies col + 1 <= (
            #[trigger] self.editing_table@[i])@.len() by {
                assert(synced.table[i].len() == self.editing_table@[i]@.len());
            }
            assert(synced.table[row as int].len() == self.editing_table@[row as int]@.len());
        }
        let width: usize = self.editing_table[row].len();
        insert_col(&mut self.editing_table, col + 1);
        proof {
            assert(self@ =~= (AppView { table: with_col(synced.table, col + 1), ..synced }));
        }
        self.table_goto(id, row, col + 1);
    }

    /// Does nothing to the grid's last column: there is always at least one
    /// to type into.
    pub fn table_delete_col(&mut self, id: ShapeId, row: usize, col: usize)
        requires
            old(self)@.in_grid(row, col),
        ensures
            final(self)@ == old(self)@.col_deleted(id@, row, col),
            final(self).maps_wf() == old(self).maps_wf(),
    {
        self.sync_cell(row, col);
        let ghost synced = self@;
        let (_rows, cols) = self.table_dims();
        proof {
            assert(all_reach(synced.table, col as int));
            assert forall|i: int| 0 <= i < self.editing_table@.len() implies col < (
            #[trigger] self.editing_table@[i])@.len() by {
                assert(synced.table[i].len() == self.editing_table@[i]@.len());
            }
            assert(synced.table[0].len() > col);
        }
        if cols > 1 {
            remove_col(&mut self.editing_table, col);
            proof {
                assert(self@ =~= (AppView {
                    table: without_col(synced.table, col as int),
                    ..synced
                }));
            }
        }
        let (_rows, left) = self.table_dims();
        let c: usize = if col < left - 1 {
            col
        } else {
            left - 1
        };
        self.table_goto(id, row, c);
    }

    pub fn table_insert_row(&mut self, id: ShapeId, row: usize, col: usize)
        requires
            row < old(self)@.table.len(),
        ensures
            final(self)@ == old(self)@.row_inserted(id@, row, col),
            final(self).maps_wf() == old(self).maps_wf(),
    {
        self.sync_cell(row, col);
        let ghost synced = self@;
        let (rows, cols) = self.table_dims();
        let more: Vec<String> = new_row(cols);
        let ghost shown = views(more@);
        self.editing_table.insert(row + 1, more);
        proof {
            assert(cells(self.editing_table@) =~= synced.table.insert(row + 1, shown));
            assert(self@ =~= (AppView {
                table: synced.table.insert(row + 1, shown),
                ..synced
            }));
        }
        self.table_goto(id, row + 1, col);
    }

    /// Does nothing to the header row, or once only the header and one data
    /// row are left: a table always keeps both.
    pub fn table_delete_row(&mut self, id: ShapeId, row: usize, col: usize)
        requires
            row < old(self)@.table.len(),
        ensures
            final(self)@ == old(self)@.row_deleted(id@, row, col),
            final(self).maps_wf() == old(self).maps_wf(),
    {
        self.sync_cell(row, col);
        let ghost synced = self@;
        let (rows, _cols) = self.table_dims();
        if row != 0 && rows > 2 {
            let _gone: Vec<String> = self.editing_table.remove(row);
            proof {
                assert(cells(self.editing_table@) =~= synced.table.remove(row as int));
                assert(self@ =~= (AppView { table: synced.table.remove(row as int), ..synced }));
            }
        }
        let (left, _cols) = self.table_dims();
        let r: usize = if row < left - 1 {
            row
        } else {
            left - 1
        };
        self.table_goto(id, r, col);
    }
}

/// One step along an axis of `n` cells, kept inside.
fn step(at: usize, d: i32, n: usize) -> (r: usize)
    requires
        n > 0,
        -1 <= d <= 1,
    ensures
        r == max(min(at + d, n - 1), 0),
{
    if d > 0 {
        if at >= n - 1 {
            n - 1
        } else {
            at + 1
        }
    } else if d < 0 {
        if at == 0 {
            0
        } else if at - 1 > n - 1 {
            n - 1
        } else {
            at - 1
        }
    } else if at > n - 1 {
        n - 1
    } else {
        at
    }
}

} // verus!

//! Drawing a box whose text is a table, as a grid.

use vstd::prelude::*;

use crate::editing::cell_at;
use crate::geometry::{min, Rect};
use crate::model::{CellAnchor, Side};
use crate::paint::{span_views, Look, Paint, PaintView};
use crate::route::{
    attach, landing, rect_span, screen_place, side_point, span_at, steady, Landing, ScreenRect,
};
use crate::sheet::{Sheet, SheetView};
use crate::table::{
    break_pieces, cell_lines, cells, col_center, col_center_frac, col_count, col_sizes, col_widths,
    display_width, row_center, row_center_frac, row_size, text_width, total, Cells, Fraction, Table,
};
use crate::target::{HitTarget, HitView};
use crate::text::{push_repeated, repeated, views};

verus! {

/// What is inside a border.
pub open spec fn within_border(r: Rect) -> Rect {
    Rect {
        x: min(r.x + 1, r.x_end() as int) as u16,
        y: min(r.y + 1, r.y_end() as int) as u16,
        width: if r.width >= 2 {
            (r.width - 2) as u16
        } else {
            0
        },
        height: if r.height >= 2 {
            (r.height - 2) as u16
        } else {
            0
        },
    }
}

/// What is inside a border.
pub fn inner_rect(r: Rect) -> (i: Rect)
    ensures
        i == within_border(r),
{
    let right: u16 = r.right();
    let bottom: u16 = r.bottom();
    Rect {
        x: if r.x < right {
            r.x + 1
        } else {
            right
        },
        y: if r.y < bottom {
            r.y + 1
        } else {
            bottom
        },
        width: if r.width >= 2 {
            r.width - 2
        } else {
            0
        },
        height: if r.height >= 2 {
            r.height - 2
        } else {
            0
        },
    }
}

/// A grid to draw in a box: which box, where on screen, what is in it,
/// which cell is being typed into, and its look.
pub struct TableView {
    pub id: String,
    pub rect: Rect,
    pub table: Table,
    pub cursor: Option<(usize, usize)>,
    pub look: Look,
}

/// A grid to draw, its texts as characters.
pub ghost struct Grid {
    pub id: Seq<char>,
    pub rect: Rect,
    pub cells: Cells,
    pub cursor: Option<(usize, usize)>,
    pub look: Look,
}

impl View for TableView {
    type V = Grid;

    open spec fn view(&self) -> Grid {
        Grid {
            id: self.id@,
            rect: self.rect,
            cells: cells(self.table@),
            cursor: self.cursor,
            look: self.look,
        }
    }
}

/// How far the drawing of a grid has come: the frame, the next row of the
/// screen, and the row that the line under the header is on.
pub ghost struct Progress {
    pub sheet: SheetView,
    pub y: u16,
    pub rule: Option<u16>,
}

impl Grid {
    pub open spec fn inner(self) -> Rect {
        within_border(self.rect)
    }

    pub open spec fn cols(self) -> int {
        col_count(self.cells) as int
    }

    /// How wide a column is.
    pub open spec fn width(self, c: int) -> nat {
        col_sizes(self.cells)[c]
    }

    /// Where a column starts: after those before it, each with a space on
    /// either side and its divider.
    pub open spec fn col_x(self, c: int) -> int {
        self.inner().x + total(col_sizes(self.cells).take(c), 3)
    }

    /// A row's cells, as many as there are columns.
    pub open spec fn row(self, r: int) -> Seq<Seq<char>> {
        Seq::new(col_count(self.cells), |c: int| cell_at(self.cells, r, c))
    }

    /// The text of a cell on one of its row's lines.
    pub open spec fn line_text(self, r: int, c: int, line: int) -> Seq<char> {
        let ls = break_pieces(self.row(r)[c]);
        if line < ls.len() {
            ls[line]
        } else {
            Seq::empty()
        }
    }

    pub open spec fn is_cursor(self, r: int, c: int) -> bool {
        self.cursor matches Some((cr, cc)) && cr == r && cc == c
    }

    /// What shows of a cell on one of its row's lines: a space, the text
    /// filled up to the column's width in terminal cells, and a space or, on
    /// the last line of the cell that is being typed into, the cursor.
    pub open spec fn cell_text(self, r: int, c: int, line: int) -> Seq<char> {
        let text = self.line_text(r, c, line);
        let fill = if text_width(text) < self.width(c) {
            (self.width(c) - text_width(text)) as nat
        } else {
            0
        };
        let last = line + 1 == break_pieces(self.row(r)[c]).len();
        (seq![' '] + text + repeated(' ', fill)).push(
            if self.is_cursor(r, c) && last {
                '▏'
            } else {
                ' '
            },
        )
    }

    /// A cell's look: bold in the header, reversed while typed into.
    pub open spec fn cell_look(self, r: int, c: int) -> Look {
        Look { bold: self.look.bold || r == 0, reversed: self.look.reversed || self.is_cursor(
            r,
            c,
        ), ..self.look }
    }

    /// The first `k` cells of a row on one of its lines, with the dividers
    /// between them.
    pub open spec fn spans(self, r: int, line: int, k: int) -> Seq<(Seq<char>, Look)>
        decreases k,
    {
        if k <= 0 {
            Seq::empty()
        } else {
            let before = self.spans(r, line, k - 1);
            let divided = if k > 1 {
                before.push(("│"@, self.look))
            } else {
                before
            };
            divided.push((self.cell_text(r, k - 1, line), self.cell_look(r, k - 1)))
        }
    }

    /// The area of one line of the screen.
    pub open spec fn line_area(self, y: u16) -> Rect {
        crate::geometry::rect(self.inner().x, y, self.inner().width, 1)
    }

    /// The frame with the first `k` lines of a row.
    pub open spec fn lines(self, s: SheetView, r: int, y: u16, k: int) -> SheetView
        decreases k,
    {
        if k <= 0 {
            s
        } else {
            self.lines(s, r, y, k - 1).with(
                PaintView::Spans {
                    area: self.line_area((y + k - 1) as u16),
                    spans: self.spans(r, k - 1, self.cols()),
                },
            )
        }
    }

    /// The frame with the first `k` cells of a row to hit, each over its
    /// whole height.
    pub open spec fn targets(self, s: SheetView, r: int, y: u16, height: u16, k: int) -> SheetView
        decreases k,
    {
        if k <= 0 {
            s
        } else {
            let before = self.targets(s, r, y, height, k - 1);
            let x = self.col_x(k - 1);
            let right = self.inner().x_end();
            let area = crate::geometry::rect(
                x as u16,
                y,
                min(self.width(k - 1) as int + 2, right - x) as u16,
                height,
            );
            if x >= right || area.empty() {
                before
            } else {
                before.hit(area, HitView::TableCell(self.id, r as usize, (k - 1) as usize))
            }
        }
    }

    /// The line under the header across the first `k` columns.
    pub open spec fn rule(self, k: int) -> Seq<char>
        decreases k,
    {
        if k <= 0 {
            Seq::empty()
        } else {
            let before = self.rule(k - 1);
            let crossed = if k > 1 {
                before.push('┼')
            } else {
                before
            };
            crossed + repeated('─', self.width(k - 1) + 2)
        }
    }

    /// How far the drawing has come after one more row: nothing more where
    /// the box is full.
    pub open spec fn row_drawn(self, p: Progress, r: int) -> Progress {
        let bottom = self.inner().y_end();
        if p.y >= bottom {
            p
        } else {
            let height = min(row_size(self.row(r)) as int, bottom - p.y) as u16;
            let y = (p.y + height) as u16;
            let s = self.targets(
                self.lines(p.sheet, r, p.y, height as int),
                r,
                p.y,
                height,
                self.cols(),
            );
            if y < bottom && r == 0 && self.cells.len() > 1 {
                Progress {
                    sheet: s.with(
                        PaintView::Text {
                            area: self.line_area(y),
                            text: self.rule(self.cols()),
                            look: self.look,
                        },
                    ),
                    y: (y + 1) as u16,
                    rule: Some(y),
                }
            } else {
                Progress { sheet: s, y, rule: p.rule }
            }
        }
    }

    /// How far the drawing has come after the first `k` rows.
    pub open spec fn rows_drawn(self, s: SheetView, k: int) -> Progress
        decreases k,
    {
        if k <= 0 {
            Progress { sheet: s, y: self.inner().y, rule: None }
        } else {
            self.row_drawn(self.rows_drawn(s, k - 1), k - 1)
        }
    }

    /// The frame with a character on the border at each divider between the
    /// first `k` columns, as far as they are in the box.
    pub open spec fn junctions(self, s: SheetView, y: u16, ch: char, k: int) -> SheetView
        decreases k,
    {
        if k <= 1 {
            s
        } else {
            let before = self.junctions(s, y, ch, k - 1);
            let x = self.col_x(k - 1) - 1;
            if x >= self.inner().x_end() {
                before
            } else {
                before.with(PaintView::Symbol { x: x as u16, y, ch })
            }
        }
    }

    /// The frame with the border joined to the grid's own lines. The bottom
    /// border is joined only where the grid reaches it.
    pub open spec fn joined(self, p: Progress) -> SheetView {
        let r = self.rect;
        let s1 = self.junctions(p.sheet, r.y, '┬', self.cols());
        let s2 = if p.y >= self.inner().y_end() && r.y_end() > r.y {
            self.junctions(s1, (r.y_end() - 1) as u16, '┴', self.cols())
        } else {
            s1
        };
        match p.rule {
            Some(y) => {
                let s3 = s2.with(PaintView::Symbol { x: r.x, y, ch: '├' });
                if r.x_end() > r.x {
                    s3.with(PaintView::Symbol { x: (r.x_end() - 1) as u16, y, ch: '┤' })
                } else {
                    s3
                }
            },
            None => s2,
        }
    }

    pub open spec fn place(self) -> ScreenRect {
        crate::route::place_of(self.rect)
    }

    /// The frame with a grab point at the top and the bottom of each of the
    /// first `k` columns, wider than the one cell that a dot shows in.
    pub open spec fn col_dots(self, s: SheetView, at: Landing, k: int) -> SheetView
        decreases k,
    {
        if k <= 0 {
            s
        } else {
            let before = self.col_dots(s, at, k - 1);
            match col_center(self.cells, k - 1, self.rect.width) {
                None => before,
                Some(part) => {
                    let dot = HitView::AnchorDot(
                        self.id,
                        CellAnchor { row: None, col: Some((k - 1) as usize) },
                    );
                    let top = attach(self.place(), Side::Top, part, at);
                    let bottom = attach(self.place(), Side::Bottom, part, at);
                    before.hit(span_at(top.0 - 1, top.1, 3, 2), dot).hit(
                        span_at(bottom.0 - 1, bottom.1 - 1, 3, 2),
                        dot,
                    )
                },
            }
        }
    }

    /// The frame with a grab point at the left and the right of each of the
    /// first `k` rows.
    pub open spec fn row_dots(self, s: SheetView, at: Landing, k: int) -> SheetView
        decreases k,
    {
        if k <= 0 {
            s
        } else {
            let before = self.row_dots(s, at, k - 1);
            match row_center(self.cells, k - 1, self.rect.height) {
                None => before,
                Some(part) => {
                    let dot = HitView::AnchorDot(
                        self.id,
                        CellAnchor { row: Some((k - 1) as usize), col: None },
                    );
                    let left = attach(self.place(), Side::Left, part, at);
                    let right = attach(self.place(), Side::Right, part, at);
                    before.hit(span_at(left.0, left.1 - 1, 2, 3), dot).hit(
                        span_at(right.0 - 1, right.1 - 1, 2, 3),
                        dot,
                    )
                },
            }
        }
    }

    /// The frame with the whole grid: its rows, its lines joined to the
    /// border, and the grab points around it.
    pub open spec fn drawn(self, s: SheetView, at: Landing) -> SheetView {
        let p = self.rows_drawn(s, self.cells.len() as int);
        self.row_dots(
            self.col_dots(self.joined(p), at, self.cols()),
            at,
            self.cells.len() as int,
        )
    }
}

/// The lines of a row's cells, as many as there are columns.
fn row_lines(table: &Table, r: usize, cols: usize) -> (o: Vec<Vec<String>>)
    requires
        r < table@.len(),
        cols == col_count(cells(table@)),
    ensures
        o@.len() == cols,
        forall|c: int|
            0 <= c < cols ==> views((#[trigger] o@[c])@) == break_pieces(
                cell_at(cells(table@), r as int, c),
            ),
{
    let ghost t = cells(table@);
    let mut out: Vec<Vec<String>> = Vec::new();
    let mut c: usize = 0;
    while c < cols
        invariant
            c <= cols,
            r < table@.len(),
            t == cells(table@),
            out@.len() == c,
            forall|k: int|
                0 <= k < c ==> views((#[trigger] out@[k])@) == break_pieces(
                    cell_at(t, r as int, k),
                ),
        decreases cols - c,
    {
        let ls: Vec<String> = if c < table[r].len() {
            cell_lines(table[r][c].as_str())
        } else {
            proof {
                reveal_strlit("");
                assert(""@ =~= cell_at(t, r as int, c as int));
            }
            cell_lines("")
        };
        out.push(ls);
        c += 1;
    }
    out
}

/// How many lines a row takes.
fn tallest(lines: &Vec<Vec<String>>, Ghost(row): Ghost<Seq<Seq<char>>>) -> (h: usize)
    requires
        lines@.len() == row.len(),
        forall|c: int|
            0 <= c < row.len() ==> views((#[trigger] lines@[c])@) == break_pieces(row[c]),
    ensures
        h == row_size(row),
{
    let mut most: usize = 1;
    let mut c: usize = 0;
    while c < lines.len()
        invariant
            c <= lines@.len() == row.len(),
            forall|k: int|
                0 <= k < row.len() ==> views((#[trigger] lines@[k])@) == break_pieces(row[k]),
            most == row_size(row.take(c as int)),
        decreases lines@.len() - c,
    {
        proof {
            assert(row.take(c + 1).drop_last() =~= row.take(c as int));
            assert(row.take(c + 1).last() == row[c as int]);
            assert(views(lines@[c as int]@).len() == lines@[c as int]@.len());
        }
        if most < lines[c].len() {
            most = lines[c].len();
        }
        c += 1;
    }
    proof {
        assert(row.take(row.len() as int) =~= row);
    }
    most
}

impl TableView {
    /// What is known of the columns' widths.
    pub open spec fn has_widths(&self, widths: Seq<usize>) -> bool {
        &&& widths.len() == self@.cols()
        &&& forall|c: int|
            0 <= c < widths.len() ==> #[trigger] widths[c] == self@.width(c) && widths[c]
                <= u16::MAX
    }

    /// What is known of the lines of a row's cells.
    pub open spec fn has_lines(&self, lines: Seq<Vec<String>>, r: int) -> bool {
        &&& lines.len() == self@.cols()
        &&& forall|c: int|
            0 <= c < lines.len() ==> views((#[trigger] lines[c])@) == break_pieces(
                self@.row(r)[c],
            )
    }

    fn at_cursor(&self, r: usize, c: usize) -> (b: bool)
        ensures
            b == self@.is_cursor(r as int, c as int),
    {
        match self.cursor {
            Some((cr, cc)) => cr == r && cc == c,
            None => false,
        }
    }

    /// What shows of a cell on one of its row's lines.
    fn cell_string(&self, r: usize, c: usize, lines: &Vec<String>, line: usize, width: usize) -> (s:
        String)
        requires
            c < self@.cols(),
            width == self@.width(c as int),
            views(lines@) == break_pieces(self@.row(r as int)[c as int]),
            line < usize::MAX,
        ensures
            s@ == self@.cell_text(r as int, c as int, line as int),
    {
        proof {
            assert(views(lines@).len() == lines@.len());
        }
        let mut s: String = " ".to_owned();
        let text: &str = if line < lines.len() {
            proof {
                assert(views(lines@)[line as int] == lines@[line as int]@);
            }
            lines[line].as_str()
        } else {
            proof {
                reveal_strlit("");
                assert(""@ =~= Seq::empty());
            }
            ""
        };
        s.append(text);
        let n: usize = display_width(text);
        proof {
            reveal_strlit(" ");
            assert(text@ == self@.line_text(r as int, c as int, line as int));
            assert(s@ =~= seq![' '] + text@);
        }
        let fill: usize = if n < width {
            width - n
        } else {
            0
        };
        push_repeated(&mut s, ' ', fill);
        let ghost filled = s@;
        if self.at_cursor(r, c) && line + 1 == lines.len() {
            s.append("▏");
            proof {
                reveal_strlit("▏");
                assert(s@ =~= filled.push('▏'));
            }
        } else {
            s.append(" ");
            proof {
                assert(s@ =~= filled.push(' '));
            }
        }
        s
    }

    /// A row's cells on one of its lines.
    fn row_spans(&self, r: usize, lines: &Vec<Vec<String>>, line: usize, widths: &Vec<usize>) -> (o:
        Vec<(String, Look)>)
        requires
            self.has_widths(widths@),
            self.has_lines(lines@, r as int),
            line < usize::MAX,
        ensures
            span_views(o@) == self@.spans(r as int, line as int, self@.cols()),
    {
        let mut out: Vec<(String, Look)> = Vec::new();
        let mut c: usize = 0;
        proof {
            assert(span_views(out@) =~= self@.spans(r as int, line as int, 0));
        }
        while c < widths.len()
            invariant
                c <= widths@.len(),
                self.has_widths(widths@),
                self.has_lines(lines@, r as int),
                line < usize::MAX,
                span_views(out@) == self@.spans(r as int, line as int, c as int),
            decreases widths@.len() - c,
        {
            let ghost before = span_views(out@);
            if c > 0 {
                out.push(("│".to_owned(), self.look));
                proof {
                    assert(span_views(out@) =~= before.push(("│"@, self.look)));
                }
            }
            let ghost divided = span_views(out@);
            proof {
                assert(lines@[c as int] == lines@[c as int]);
            }
            let text: String = self.cell_string(r, c, &lines[c], line, widths[c]);
            let ghost shown = text@;
            let look = Look {
                fg: self.look.fg,
                bg: self.look.bg,
                bold: self.look.bold || r == 0,
                reversed: self.look.reversed || self.at_cursor(r, c),
            };
            out.push((text, look));
            proof {
                assert(span_views(out@) =~= divided.push((shown, look)));
            }
            c += 1;
        }
        out
    }

    /// Draws a row's lines.
    fn draw_lines(
        &self,
        sheet: &mut Sheet,
        r: usize,
        lines: &Vec<Vec<String>>,
        widths: &Vec<usize>,
        y: u16,
        height: u16,
    )
        requires
            old(sheet).wf(),
            self.has_widths(widths@),
            self.has_lines(lines@, r as int),
            y + height <= u16::MAX,
        ensures
            final(sheet).wf(),
            final(sheet)@ == self@.lines(old(sheet)@, r as int, y, height as int),
    {
        let inner: Rect = inner_rect(self.rect);
        let mut k: u16 = 0;
        while k < height
            invariant
                k <= height,
                y + height <= u16::MAX,
                inner == self@.inner(),
                self.has_widths(widths@),
                self.has_lines(lines@, r as int),
                sheet.wf(),
                sheet@ == self@.lines(old(sheet)@, r as int, y, k as int),
            decreases height - k,
        {
            let spans: Vec<(String, Look)> = self.row_spans(r, lines, k as usize, widths);
            sheet.paint(
                Paint::Spans { area: Rect::new(inner.x, y + k, inner.width, 1), spans },
            );
            k += 1;
        }
    }

    /// Registers a row's cells.
    fn put_targets(&self, sheet: &mut Sheet, r: usize, widths: &Vec<usize>, y: u16, height: u16)
        requires
            old(sheet).wf(),
            self.has_widths(widths@),
        ensures
            final(sheet).wf(),
            final(sheet)@ == self@.targets(old(sheet)@, r as int, y, height, self@.cols()),
    {
        let inner: Rect = inner_rect(self.rect);
        let right: u16 = inner.right();
        let ghost sizes = col_sizes(self@.cells);
        let mut x: u128 = inner.x as u128;
        let mut c: usize = 0;
        while c < widths.len()
            invariant
                c <= widths@.len(),
                inner == self@.inner(),
                right == inner.x_end(),
                sizes == col_sizes(self@.cells),
                sizes.len() == widths@.len(),
                self.has_widths(widths@),
                x == self@.col_x(c as int),
                x <= 0x10000 + c * 0x10002,
                sheet.wf(),
                sheet@ == self@.targets(old(sheet)@, r as int, y, height, c as int),
            decreases widths@.len() - c,
        {
            if x < right as u128 {
                let left: u16 = right - x as u16;
                let wanted: usize = widths[c] + 2;
                let w: u16 = if wanted < left as usize {
                    wanted as u16
                } else {
                    left
                };
                let area: Rect = Rect::new(x as u16, y, w, height);
                if !area.is_empty() {
                    sheet.put_hit(area, HitTarget::TableCell(self.id.clone(), r, c));
                }
            }
            x = x + (widths[c] as u128) + 3;
            c += 1;
            proof {
                assert(sizes.take(c as int).drop_last() =~= sizes.take(c - 1));
            }
        }
    }

    /// The line under the header.
    fn rule_string(&self, widths: &Vec<usize>) -> (s: String)
        requires
            self.has_widths(widths@),
        ensures
            s@ == self@.rule(self@.cols()),
    {
        let mut s: String = String::new();
        let mut c: usize = 0;
        proof {
            assert(s@ =~= self@.rule(0));
        }
        while c < widths.len()
            invariant
                c <= widths@.len(),
                self.has_widths(widths@),
                s@ == self@.rule(c as int),
            decreases widths@.len() - c,
        {
            let ghost before = s@;
            if c > 0 {
                s.append("┼");
                proof {
                    reveal_strlit("┼");
                    assert(s@ =~= before.push('┼'));
                }
            }
            push_repeated(&mut s, '─', widths[c] + 2);
            c += 1;
        }
        s
    }

    /// Draws the rows; gives the next row of the screen, and the row that
    /// the line under the header is on.
    fn draw_rows(&self, sheet: &mut Sheet, widths: &Vec<usize>) -> (r: (u16, Option<u16>))
        requires
            old(sheet).wf(),
            self.has_widths(widths@),
        ensures
            final(sheet).wf(),
            ({
                let p = self@.rows_drawn(old(sheet)@, self@.cells.len() as int);
                final(sheet)@ == p.sheet && r.0 == p.y && r.1 == p.rule
            }),
    {
        let inner: Rect = inner_rect(self.rect);
        let bottom: u16 = inner.bottom();
        let cols: usize = widths.len();
        let mut y: u16 = inner.y;
        let mut rule: Option<u16> = None;
        let mut r: usize = 0;
        while r < self.table.len()
            invariant
                r <= self.table@.len(),
                inner == self@.inner(),
                bottom == inner.y_end(),
                cols == widths@.len(),
                self.has_widths(widths@),
                sheet.wf(),
                ({
                    let p = self@.rows_drawn(old(sheet)@, r as int);
                    sheet@ == p.sheet && y == p.y && rule == p.rule
                }),
            decreases self.table@.len() - r,
        {
            if y < bottom {
                let lines: Vec<Vec<String>> = row_lines(&self.table, r, cols);
                let tall: usize = tallest(&lines, Ghost(self@.row(r as int)));
                let room: u16 = bottom - y;
                let height: u16 = if tall < room as usize {
                    tall as u16
                } else {
                    room
                };
                self.draw_lines(sheet, r, &lines, widths, y, height);
                self.put_targets(sheet, r, widths, y, height);
                y = y + height;
                if y < bottom && r == 0 && self.table.len() > 1 {
                    let text: String = self.rule_string(widths);
                    sheet.paint(
                        Paint::Text {
                            area: Rect::new(inner.x, y, inner.width, 1),
                            text,
                            look: self.look,
                        },
                    );
                    rule = Some(y);
                    y = y + 1;
                }
            }
            r += 1;
        }
        (y, rule)
    }

    /// Joins a border to the grid's dividers.
    fn put_junctions(&self, sheet: &mut Sheet, widths: &Vec<usize>, y: u16, ch: char)
        requires
            old(sheet).wf(),
            self.has_widths(widths@),
        ensures
            final(sheet).wf(),
            final(sheet)@ == self@.junctions(old(sheet)@, y, ch, self@.cols()),
    {
        if widths.len() == 0 {
            return;
        }
        let inner: Rect = inner_rect(self.rect);
        let right: u16 = inner.right();
        let ghost sizes = col_sizes(self@.cells);
        let mut x: u128 = inner.x as u128;
        let mut c: usize = 1;
        proof {
            assert(sizes.take(0) =~= Seq::empty());
        }
        while c < widths.len()
            invariant
                1 <= c <= widths@.len(),
                inner == self@.inner(),
                right == inner.x_end(),
                sizes == col_sizes(self@.cells),
                sizes.len() == widths@.len(),
                self.has_widths(widths@),
                x == self@.col_x(c - 1),
                x <= 0x10000 + (c - 1) * 0x10002,
                sheet.wf(),
                sheet@ == self@.junctions(old(sheet)@, y, ch, c as int),
            decreases widths@.len() - c,
        {
            x = x + (widths[c - 1] as u128) + 3;
            proof {
                assert(sizes.take(c as int).drop_last() =~= sizes.take(c - 1));
            }
            if x - 1 < right as u128 {
                sheet.paint(Paint::Symbol { x: (x - 1) as u16, y, ch });
            }
            c += 1;
        }
    }

    /// Registers the grab points of the columns and rows.
    fn put_dots<F: Fn(Fraction, u16) -> u16>(&self, sheet: &mut Sheet, cols: usize, at: &F)
        requires
            old(sheet).wf(),
            cols == self@.cols(),
            steady(*at),
        ensures
            final(sheet).wf(),
            final(sheet)@ == self@.row_dots(
                self@.col_dots(old(sheet)@, landing(*at), self@.cols()),
                landing(*at),
                self@.cells.len() as int,
            ),
    {
        let place: ScreenRect = screen_place(self.rect);
        let mut c: usize = 0;
        while c < cols
            invariant
                c <= cols == self@.cols(),
                place == self@.place(),
                place.near(),
                steady(*at),
                sheet.wf(),
                sheet@ == self@.col_dots(old(sheet)@, landing(*at), c as int),
            decreases cols - c,
        {
            match col_center_frac(&self.table, c, self.rect.width) {
                Some(part) => {
                    let anchor = CellAnchor { row: None, col: Some(c) };
                    let top: (i64, i64) = side_point(place, Side::Top, part, at);
                    let bottom: (i64, i64) = side_point(place, Side::Bottom, part, at);
                    sheet.put_hit(
                        rect_span(top.0 - 1, top.1, 3, 2),
                        HitTarget::AnchorDot(self.id.clone(), anchor),
                    );
                    sheet.put_hit(
                        rect_span(bottom.0 - 1, bottom.1 - 1, 3, 2),
                        HitTarget::AnchorDot(self.id.clone(), anchor),
                    );
                },
                None => {},
            }
            c += 1;
        }
        let ghost base = sheet@;
        let mut r: usize = 0;
        while r < self.table.len()
            invariant
                r <= self.table@.len(),
                place == self@.place(),
                place.near(),
                steady(*at),
                sheet.wf(),
                sheet@ == self@.row_dots(base, landing(*at), r as int),
            decreases self.table@.len() - r,
        {
            match row_center_frac(&self.table, r, self.rect.height) {
                Some(part) => {
                    let anchor = CellAnchor { row: Some(r), col: None };
                    let left: (i64, i64) = side_point(place, Side::Left, part, at);
                    let right: (i64, i64) = side_point(place, Side::Right, part, at);
                    sheet.put_hit(
                        rect_span(left.0, left.1 - 1, 2, 3),
                        HitTarget::AnchorDot(self.id.clone(), anchor),
                    );
                    sheet.put_hit(
                        rect_span(right.0 - 1, right.1 - 1, 2, 3),
                        HitTarget::AnchorDot(self.id.clone(), anchor),
                    );
                },
                None => {},
            }
            r += 1;
        }
    }

    /// Draws the grid into its box.
    pub fn draw<F: Fn(Fraction, u16) -> u16>(&self, sheet: &mut Sheet, at: &F)
        requires
            old(sheet).wf(),
            steady(*at),
        ensures
            final(sheet).wf(),
            final(sheet)@ == self@.drawn(old(sheet)@, landing(*at)),
    {
        let widths: Vec<usize> = col_widths(&self.table);
        let inner: Rect = inner_rect(self.rect);
        let (y, rule) = self.draw_rows(sheet, &widths);
        let right: u16 = self.rect.right();
        let bottom: u16 = self.rect.bottom();
        self.put_junctions(sheet, &widths, self.rect.y, '┬');
        if y >= inner.bottom() && bottom > self.rect.y {
            self.put_junctions(sheet, &widths, bottom - 1, '┴');
        }
        match rule {
            Some(at_y) => {
                sheet.paint(Paint::Symbol { x: self.rect.x, y: at_y, ch: '├' });
                if right > self.rect.x {
                    sheet.paint(Paint::Symbol { x: right - 1, y: at_y, ch: '┤' });
                }
            },
            None => {},
        }
        self.put_dots(sheet, widths.len(), at);
    }
}

} // verus!

//! One frame of the outline editor: what is drawn, and where its rows are.

use vstd::prelude::*;

use crate::geometry::Rect;
use crate::mind_app::{MindApp, MindView, Mode};
use crate::mindmap::{Kind, MNode, NodeId};
use crate::outline::OutlineNode;
use crate::outline_laws::lemma_flat_ids;
use crate::paint::{emit, inked, paint_views, Ink, Look, Paint, PaintView};
use crate::pointer::{
    drag_ghost, drag_key, held, item_views, items_fit, over, put_list, sort_ghost, sort_over,
    SortView,
};
use crate::text::{push_repeated, repeated};

verus! {

/// How many columns a row is set in for each level.
pub const INDENT: u16 = 2;

/// How far a row is set in.
pub open spec fn indent_cols(depth: int) -> int {
    (depth % 65536) * INDENT
}

/// A row on the canvas, `y` rows down the screen; empty where it would be
/// off the screen.
pub open spec fn row_area(area: Rect, indent: int, y: int) -> Rect {
    let x = area.x + indent;
    if x > u16::MAX || y > u16::MAX {
        Rect { x: 0, y: 0, width: 0, height: 0 }
    } else {
        crate::geometry::rect(
            x as u16,
            y as u16,
            if indent < area.width {
                (area.width - indent) as u16
            } else {
                0
            },
            1,
        ).shared(area)
    }
}

/// The row that item `i` of the list is on, `slot` being the gap that is
/// left open for the dragged one.
pub open spec fn row_y(area: Rect, slot: Option<usize>, i: int) -> int {
    area.y + i + (if slot is Some && slot->0 <= i {
        1int
    } else {
        0
    })
}

/// The sign before a node's text.
pub open spec fn marker(kind: Kind) -> Seq<char> {
    match kind {
        Kind::Heading(level) => repeated('#', level as nat),
        Kind::ListItem(b) => seq![b],
    }
}

/// What a row shows, given the text that is being typed in it, if any.
pub open spec fn row_paint(
    node: OutlineNode,
    area: Rect,
    selected: bool,
    typed: Option<Seq<char>>,
) -> PaintView {
    PaintView::Text {
        area,
        text: match typed {
            Some(text) => (marker(node.kind).push(' ') + text).push('▏'),
            None => marker(node.kind).push(' ') + node.text,
        },
        look: Look {
            fg: if selected {
                Some(Ink::Cyan)
            } else {
                None
            },
            bg: None,
            bold: node.kind is Heading,
            reversed: false,
        },
    }
}

impl MindView {
    /// The text that is being typed in a node, if it is the one.
    pub open spec fn typed_in(self, id: u64) -> Option<Seq<char>> {
        if self.mode == Mode::Editing(id) {
            Some(self.editing_text)
        } else {
            None
        }
    }

    /// The ids of the rows: every node but the dragged one and all under
    /// it.
    pub open spec fn rows(self) -> Seq<u64> {
        self.tree().flat(drag_key(self.sort.drag))
    }

    /// Where row `i` is.
    pub open spec fn row(self, area: Rect, i: int) -> Rect {
        row_area(
            area,
            indent_cols(self.tree().nodes[self.rows()[i]].depth),
            row_y(area, sort_over(self.sort), i),
        )
    }

    /// What row `i` shows.
    pub open spec fn row_shown(self, area: Rect, i: int) -> PaintView {
        let id = self.rows()[i];
        row_paint(
            self.tree().nodes[id],
            self.row(area, i),
            self.selected == Some(id),
            self.typed_in(id),
        )
    }

    /// What is drawn in the gap that is left open for the dragged node.
    pub open spec fn gap_shown(self, area: Rect) -> Seq<PaintView> {
        match sort_over(self.sort) {
            Some(slot) => if slot <= self.rows().len() {
                let r = row_area(area, 0, area.y + slot);
                seq![
                    PaintView::Text {
                        area: r,
                        text: repeated('·', r.width as nat),
                        look: inked(Ink::DarkGray),
                    },
                ]
            } else {
                Seq::empty()
            },
            None => Seq::empty(),
        }
    }

    /// What is drawn of the dragged node.
    pub open spec fn ghost_shown(self, area: Rect) -> Seq<PaintView> {
        match (drag_ghost(self.sort.drag, area), drag_key(self.sort.drag)) {
            (Some(g), Some(id)) => if self.tree().nodes.contains_key(id) {
                seq![
                    PaintView::Blank { area: g },
                    row_paint(self.tree().nodes[id], g, true, None),
                ]
            } else {
                Seq::empty()
            },
            _ => Seq::empty(),
        }
    }

    /// What the status line shows.
    pub open spec fn status_shown(self, area: Rect) -> PaintView {
        PaintView::Text {
            area,
            text: (match self.mode {
                Mode::Normal => "NORMAL"@,
                Mode::Editing(_) => "EDIT (Esc/Enter to leave)"@,
            }) + " — "@ + self.status + " — "@ + hint(),
            look: inked(Ink::DarkGray),
        }
    }

    /// One frame of the outline editor.
    pub open spec fn frame(self, area: Rect, status_area: Rect) -> Seq<PaintView> {
        let rows = Seq::new(self.rows().len(), |i: int| self.row_shown(area, i));
        (rows + self.gap_shown(area) + self.ghost_shown(area)).push(
            self.status_shown(status_area),
        )
    }

    /// Where the rows are, to be dragged.
    pub open spec fn items(self, area: Rect) -> Seq<(Rect, u64)> {
        Seq::new(self.rows().len(), |i: int| (self.row(area, i), self.rows()[i]))
    }
}

/// What the status line says last.
pub open spec fn hint() -> Seq<char> {
    "click select · drag reorder/re-parent · enter edit · ctrl+z undo · s save · q/esc quit"@
}

proof fn lemma_row_fits(area: Rect, indent: int, y: int)
    requires
        area.fits(),
        indent >= 0,
        y >= 0,
    ensures
        row_area(area, indent, y).fits(),
{
}

fn row_rect(area: Rect, depth: usize, y: u64) -> (r: Rect)
    requires
        area.fits(),
    ensures
        r == row_area(area, indent_cols(depth as int), y as int),
        r.fits(),
{
    let indent: u64 = (depth as u64 % 65536) * 2;
    let x: u64 = area.x as u64 + indent;
    proof {
        lemma_row_fits(area, indent as int, y as int);
    }
    if x > u16::MAX as u64 || y > u16::MAX as u64 {
        return Rect { x: 0, y: 0, width: 0, height: 0 };
    }
    let width: u16 = if indent < area.width as u64 {
        area.width - indent as u16
    } else {
        0
    };
    let row: Rect = Rect::new(x as u16, y as u16, width, 1);
    row.intersection(&area)
}

/// Draws a row.
fn draw_row(out: &mut Vec<Paint>, node: &MNode, area: Rect, selected: bool, typed: Option<&String>)
    ensures
        paint_views(final(out)@) == paint_views(old(out)@).push(
            row_paint(
                node@,
                area,
                selected,
                match typed {
                    Some(s) => Some(s@),
                    None => None,
                },
            ),
        ),
{
    let mut line: String = String::new();
    proof {
        assert(line@ =~= Seq::empty());
    }
    match node.kind {
        Kind::Heading(level) => push_repeated(&mut line, '#', level as usize),
        Kind::ListItem(b) => line.push(b),
    }
    proof {
        assert(line@ =~= marker(node@.kind));
    }
    line.push(' ');
    match typed {
        Some(text) => {
            line.append(text.as_str());
            line.push('▏');
        },
        None => line.append(node.text.as_str()),
    }
    let bold: bool = match node.kind {
        Kind::Heading(_) => true,
        Kind::ListItem(_) => false,
    };
    let fg: Option<Ink> = if selected {
        Some(Ink::Cyan)
    } else {
        None
    };
    emit(out, Paint::Text { area, text: line, look: Look { fg, bg: None, bold, reversed: false } });
}

impl MindApp {
    fn typed_text(&self, id: NodeId) -> (r: Option<&String>)
        ensures
            match r {
                Some(s) => self@.typed_in(id) == Some(s@),
                None => self@.typed_in(id) is None,
            },
    {
        match self.mode {
            Mode::Editing(open) => if open == id {
                Some(&self.editing_text)
            } else {
                None
            },
            Mode::Normal => None,
        }
    }

    /// Draws the rows; gives where each is.
    fn draw_rows(&self, out: &mut Vec<Paint>, flat: &Vec<NodeId>, slot: Option<usize>, area: Rect) -> (r:
        Vec<(NodeId, Rect)>)
        requires
            self.wf(),
            area.fits(),
            flat@ == self@.rows(),
            slot == sort_over(self@.sort),
        ensures
            paint_views(final(out)@) == paint_views(old(out)@) + Seq::new(
                self@.rows().len(),
                |i: int| self@.row_shown(area, i),
            ),
            item_views(r@) == self@.items(area),
            items_fit(item_views(r@)),
    {
        let ghost before = paint_views(out@);
        let ghost shown = Seq::new(self@.rows().len(), |i: int| self@.row_shown(area, i));
        let ghost want = self@.items(area);
        let mut rows: Vec<(NodeId, Rect)> = Vec::new();
        let mut i: usize = 0;
        proof {
            lemma_flat_ids(self.tree@, drag_key(self@.sort.drag));
            assert(before + shown.take(0) =~= before);
        }
        while i < flat.len()
            invariant
                i <= flat@.len(),
                self.wf(),
                area.fits(),
                flat@ == self@.rows(),
                slot == sort_over(self@.sort),
                shown == Seq::new(self@.rows().len(), |i: int| self@.row_shown(area, i)),
                want == self@.items(area),
                forall|k: int|
                    0 <= k < flat@.len() ==> self.tree@.nodes.contains_key(#[trigger] flat@[k]),
                paint_views(out@) == before + shown.take(i as int),
                rows@.len() == i,
                forall|k: int|
                    0 <= k < i ==> (#[trigger] rows@[k]).0 == want[k].1 && rows@[k].1
                        == want[k].0 && rows@[k].1.fits(),
            decreases flat@.len() - i,
        {
            let id: NodeId = flat[i];
            let gap: u64 = match slot {
                Some(s) => if s <= i {
                    1
                } else {
                    0
                },
                None => 0,
            };
            let y: u64 = if i as u64 > 0x10000 {
                0x20000
            } else {
                area.y as u64 + i as u64 + gap
            };
            match self.tree.node(id) {
                Some(node) => {
                    let r: Rect = row_rect(area, node.depth, y);
                    let selected: bool = match self.selected {
                        Some(s) => s == id,
                        None => false,
                    };
                    proof {
                        assert(r == self@.row(area, i as int));
                    }
                    draw_row(out, node, r, selected, self.typed_text(id));
                    rows.push((id, r));
                    proof {
                        assert(before + shown.take(i as int).push(shown[i as int]) =~= (before
                            + shown.take(i as int)).push(shown[i as int]));
                        assert(shown.take(i + 1) =~= shown.take(i as int).push(shown[i as int]));
                    }
                },
                None => {
                    proof {
                        assert(self.tree@.nodes.contains_key(flat@[i as int]));
                        assert(false);
                    }
                },
            }
            i += 1;
        }
        proof {
            assert(shown.take(shown.len() as int) =~= shown);
            assert(item_views(rows@) =~= want);
        }
        rows
    }

    /// Draws the gap that is left open for the dragged node.
    fn draw_gap(&self, out: &mut Vec<Paint>, count: usize, slot: Option<usize>, area: Rect)
        requires
            area.fits(),
            count == self@.rows().len(),
            slot == sort_over(self@.sort),
        ensures
            paint_views(final(out)@) == paint_views(old(out)@) + self@.gap_shown(area),
    {
        let ghost before = paint_views(out@);
        match slot {
            Some(s) => {
                if s <= count {
                    let y: u64 = if s as u64 > 0x10000 {
                        0x20000
                    } else {
                        area.y as u64 + s as u64
                    };
                    let r: Rect = row_rect(area, 0, y);
                    let mut text: String = String::new();
                    push_repeated(&mut text, '·', r.width as usize);
                    proof {
                        assert(text@ =~= repeated('·', r.width as nat));
                    }
                    emit(out, Paint::Text { area: r, text, look: Look::fg(Ink::DarkGray) });
                    proof {
                        assert(paint_views(out@) =~= before + self@.gap_shown(area));
                    }
                    return;
                }
            },
            None => {},
        }
        proof {
            assert(before + self@.gap_shown(area) =~= before);
        }
    }

    /// Draws the dragged node where it hangs.
    fn draw_ghost(&self, out: &mut Vec<Paint>, area: Rect)
        requires
            self.wf(),
            area.fits(),
        ensures
            paint_views(final(out)@) == paint_views(old(out)@) + self@.ghost_shown(area),
    {
        let ghost before = paint_views(out@);
        match (sort_ghost(&self.sort, area), held(&self.sort)) {
            (Some(g), Some(id)) => match self.tree.node(id) {
                Some(node) => {
                    emit(out, Paint::Blank { area: g });
                    draw_row(out, node, g, true, None);
                    proof {
                        assert(paint_views(out@) =~= before + self@.ghost_shown(area));
                    }
                    return;
                },
                None => {},
            },
            _ => {},
        }
        proof {
            assert(before + self@.ghost_shown(area) =~= before);
        }
    }

    fn draw_status(&self, out: &mut Vec<Paint>, area: Rect)
        ensures
            paint_views(final(out)@) == paint_views(old(out)@).push(self@.status_shown(area)),
    {
        let mut line: String = match self.mode {
            Mode::Normal => "NORMAL".to_owned(),
            Mode::Editing(_) => "EDIT (Esc/Enter to leave)".to_owned(),
        };
        line.append(" — ");
        line.append(self.status.as_str());
        line.append(" — ");
        line.append(
            "click select · drag reorder/re-parent · enter edit · ctrl+z undo · s save · q/esc quit",
        );
        emit(out, Paint::Text { area, text: line, look: Look::fg(Ink::DarkGray) });
    }

    /// One frame of the outline editor: what to draw, in order. Where its
    /// rows are takes the place of where they were before.
    pub fn render(&mut self, canvas_area: Rect, status_area: Rect) -> (r: Vec<Paint>)
        requires
            old(self).wf(),
            canvas_area.fits(),
        ensures
            ({
                let before = old(self)@;
                let sort = SortView {
                    drag: before.sort.drag,
                    area: Some(canvas_area),
                    items: before.items(canvas_area),
                };
                &&& final(self)@ == (MindView { sort, ..before })
                &&& paint_views(r@) == before.frame(canvas_area, status_area)
            }),
            final(self).wf(),
    {
        let ghost before = self@;
        let slot: Option<usize> = over(&self.sort);
        let flat: Vec<NodeId> = self.tree.flat(held(&self.sort));
        let mut out: Vec<Paint> = Vec::new();
        proof {
            assert(paint_views(out@) =~= Seq::empty());
        }
        let rows: Vec<(NodeId, Rect)> = self.draw_rows(&mut out, &flat, slot, canvas_area);
        self.draw_gap(&mut out, flat.len(), slot, canvas_area);
        self.draw_ghost(&mut out, canvas_area);
        self.draw_status(&mut out, status_area);
        put_list(&mut self.sort, canvas_area, &rows);
        proof {
            assert(paint_views(out@) =~= before.frame(canvas_area, status_area));
        }
        out
    }
}

} // verus!

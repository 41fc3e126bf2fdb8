//! The small map in the canvas's corner: every box as a dot over the whole
//! board's extent, with what is on screen marked.

use vstd::prelude::*;

use crate::app::{App, AppView};
use crate::geometry::Rect;
use crate::model::WorldRect;
use crate::mouse::world_at;
use crate::paint::{ink_opt, inked, inked_under, opt_ink, Ink, Look, Paint, PaintView};
use crate::pointer::{drag_ghost, drag_key, ghost_in, moving};
use crate::route::Point;
use crate::sheet::{Sheet, SheetView};
use crate::target::{HitTarget, HitView};
use crate::text::same_str;

verus! {

/// Where a map is, and where the board's points are on it.
#[derive(Debug)]
pub struct MapLayout {
    pub area: Rect,
    /// The screen cell of the canvas's first cell.
    pub first: (u16, u16),
    /// The screen cell of the canvas's end.
    pub end: (u16, u16),
    /// The screen cell of each point of `map_points`, in order.
    pub dots: Vec<(u16, u16)>,
}

impl MapLayout {
    /// Whether the canvas's end is not before its first cell.
    pub open spec fn ordered(&self) -> bool {
        &&& self.first.0 <= self.end.0 < u16::MAX
        &&& self.first.1 <= self.end.1 < u16::MAX
    }
}

/// The middle of a box on the board.
pub open spec fn box_middle(r: WorldRect) -> Point {
    (r.x + r.width as int / 2, r.y + r.height as int / 2)
}

impl AppView {
    /// The middle of the box that is being dragged or resized, where it is
    /// right now rather than where the board still says it sits.
    pub open spec fn live_middle(self) -> Option<(Seq<char>, Point)> {
        match drag_key(self.drag) {
            Some(HitView::Move(id)) => match drag_ghost(self.drag, self.area) {
                Some(g) => {
                    let (x, y) = world_at(g.x as int, g.y as int, self.area, self.camera);
                    Some((id, (x + g.width as int / 2, y + g.height as int / 2)))
                },
                None => None,
            },
            Some(HitView::Resize(_, _)) => match self.resizing(self.area) {
                Some((id, r)) => Some((id, box_middle(r))),
                None => None,
            },
            _ => None,
        }
    }

    /// The point of box `i` that its dot on the map stands for.
    pub open spec fn map_point(self, i: int) -> Point {
        let n = self.canvas.nodes[i];
        match self.live_middle() {
            Some((id, p)) => if id == n.id {
                p
            } else {
                box_middle(n.rect)
            },
            None => box_middle(n.rect),
        }
    }

    /// The frame with the dots of the first `k` boxes, each in its own
    /// color.
    pub open spec fn dots_drawn(self, s: SheetView, dots: Seq<(u16, u16)>, k: int) -> SheetView
        decreases k,
    {
        if k <= 0 {
            s
        } else {
            let ink = match opt_ink(self.canvas.nodes[k - 1].color) {
                Some(i) => i,
                None => Ink::Gray,
            };
            self.dots_drawn(s, dots, k - 1).char(
                dots[k - 1].0 as int,
                dots[k - 1].1 as int,
                '▪',
                inked(ink),
            )
        }
    }

    /// The frame with the map over it: what is on screen as a filled region
    /// under the dots. What it covers cannot be hit.
    pub open spec fn map_drawn(self, s: SheetView, map: MapLayout) -> SheetView {
        let (x0, y0) = map.first;
        let (x1, y1) = map.end;
        let s1 = s.with(PaintView::Blank { area: map.area }).with(
            PaintView::Panel { area: map.area, title: "map"@, look: inked(Ink::DarkGray) },
        ).with(
            PaintView::Fill {
                area: crate::geometry::rect(x0, y0, (x1 - x0 + 1) as u16, (y1 - y0 + 1) as u16),
                look: inked_under(Ink::Rgb(60, 60, 70)),
            },
        );
        self.dots_drawn(s1, map.dots@, self.canvas.nodes.len() as int).hit(
            map.area,
            HitView::Minimap,
        )
    }
}

impl App {
    fn find_live_middle(&self) -> (r: Option<(String, (i64, i64))>)
        requires
            self.canvas_area.fits(),
        ensures
            match r {
                Some((id, p)) => self@.live_middle() == Some(
                    (id@, (p.0 as int, p.1 as int)),
                ),
                None => self@.live_middle() is None,
            },
    {
        match moving(&self.drag) {
            Some(HitTarget::Move(id)) => match ghost_in(&self.drag, self.canvas_area) {
                Some(g) => {
                    let (x, y) = self.to_world(g.x, g.y);
                    Some(
                        (
                            id,
                            (x as i64 + g.width as i64 / 2, y as i64 + g.height as i64 / 2),
                        ),
                    )
                },
                None => None,
            },
            Some(HitTarget::Resize(_, _)) => match self.resize_preview(self.canvas_area) {
                Some((id, r)) => Some(
                    (
                        id,
                        (r.x as i64 + r.width as i64 / 2, r.y as i64 + r.height as i64 / 2),
                    ),
                ),
                None => None,
            },
            _ => None,
        }
    }

    /// The points of the board that the dots on the map stand for, one per
    /// box: its middle.
    pub fn map_points(&self) -> (r: Vec<(i64, i64)>)
        requires
            self.canvas_area.fits(),
        ensures
            r@.len() == self@.canvas.nodes.len(),
            forall|i: int|
                0 <= i < r@.len() ==> ((#[trigger] r@[i]).0 as int, r@[i].1 as int)
                    == self@.map_point(i),
    {
        let live: Option<(String, (i64, i64))> = self.find_live_middle();
        let mut out: Vec<(i64, i64)> = Vec::new();
        let mut i: usize = 0;
        while i < self.canvas.nodes.len()
            invariant
                i <= self.canvas.nodes@.len(),
                out@.len() == i,
                match live {
                    Some((id, p)) => self@.live_middle() == Some(
                        (id@, (p.0 as int, p.1 as int)),
                    ),
                    None => self@.live_middle() is None,
                },
                forall|k: int|
                    0 <= k < i ==> ((#[trigger] out@[k]).0 as int, out@[k].1 as int)
                        == self@.map_point(k),
            decreases self.canvas.nodes@.len() - i,
        {
            let r: WorldRect = self.canvas.nodes[i].rect;
            let mut p: (i64, i64) = (
                r.x as i64 + r.width as i64 / 2,
                r.y as i64 + r.height as i64 / 2,
            );
            proof {
                assert(self@.canvas.nodes[i as int] == self.canvas.nodes@[i as int]@);
            }
            match &live {
                Some((id, q)) => {
                    if same_str(id.as_str(), self.canvas.nodes[i].id.as_str()) {
                        p = *q;
                    }
                },
                None => {},
            }
            out.push(p);
            i += 1;
        }
        out
    }

    /// Draws the map over a frame.
    pub fn draw_minimap(&self, sheet: &mut Sheet, map: &MapLayout)
        requires
            old(sheet).wf(),
            map.ordered(),
            map.dots@.len() == self.canvas.nodes@.len(),
        ensures
            final(sheet).wf(),
            final(sheet)@ == self@.map_drawn(old(sheet)@, *map),
    {
        sheet.paint(Paint::Blank { area: map.area });
        sheet.paint(
            Paint::Panel {
                area: map.area,
                title: "map".to_owned(),
                look: Look::fg(Ink::DarkGray),
            },
        );
        let (x0, y0) = map.first;
        let (x1, y1) = map.end;
        sheet.paint(
            Paint::Fill {
                area: Rect::new(x0, y0, x1 - x0 + 1, y1 - y0 + 1),
                look: Look::bg(Ink::Rgb(60, 60, 70)),
            },
        );
        let ghost base = sheet@;
        let mut i: usize = 0;
        while i < self.canvas.nodes.len()
            invariant
                i <= self.canvas.nodes@.len() == map.dots@.len(),
                sheet.wf(),
                sheet@ == self@.dots_drawn(base, map.dots@, i as int),
            decreases self.canvas.nodes@.len() - i,
        {
            let ink: Ink = match ink_opt(&self.canvas.nodes[i].color) {
                Some(ink) => ink,
                None => Ink::Gray,
            };
            let (x, y) = map.dots[i];
            proof {
                assert(self@.canvas.nodes[i as int] == self.canvas.nodes@[i as int]@);
            }
            sheet.put_char(x as i64, y as i64, '▪', Look::fg(ink));
            i += 1;
        }
        sheet.put_hit(map.area, HitTarget::Minimap);
    }
}

} // verus!

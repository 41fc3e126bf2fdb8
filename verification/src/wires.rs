//! Drawing a board's connectors.

use vstd::prelude::*;

use crate::app::{App, AppView, Mode, ModeView};
use crate::geometry::Rect;
use crate::links::{find_links, live_near, live_view, Link, Scene};
use crate::model::{Edge, EdgeEnd, EdgeView};
use crate::paint::{
    ink_opt, inked, line_look, opt_ink, shown_ink, style_of, Ink, Look, Paint, PaintView,
};
use crate::route::{
    all_near, arrow_char, drawn_path, glyphs, head_char, inside, landing, near, path, points,
    rect_at, route, route_glyphs, span_at, steady, Glyph, Landing, Point, ScreenRect,
};
use crate::sheet::{draw_color_picker, Sheet, SheetView};
use crate::table::Fraction;
use crate::target::{is_selected, Endpoint, HitTarget, HitView, Selected, SelectedView};
use crate::text::{opt_view, same_str, to_chars};

verus! {

/// The test for cells in neither of two boxes.
pub open spec fn beside(from: ScreenRect, to: ScreenRect) -> spec_fn(Glyph) -> bool {
    |g: Glyph| !from.has((g.0, g.1)) && !to.has((g.0, g.1))
}

/// The nearest of the first `k` points of a path, from the last of them
/// back, that differs from `p`.
pub open spec fn before_end(w: Seq<Point>, p: Point, k: int) -> Option<Point>
    decreases k,
{
    if k <= 0 {
        None
    } else if w[k - 1] != p {
        Some(w[k - 1])
    } else {
        before_end(w, p, k - 1)
    }
}

/// The nearest point of a path from `k` on that differs from `p`.
pub open spec fn after_start(w: Seq<Point>, p: Point, k: int) -> Option<Point>
    decreases w.len() - k,
{
    if k >= w.len() {
        None
    } else if w[k] != p {
        Some(w[k])
    } else {
        after_start(w, p, k + 1)
    }
}

/// Which way an end is entered, given the nearest other point: none at all
/// where there is no other.
pub open spec fn entering(p: Point, other: Option<Point>) -> Point {
    match other {
        Some(q) => (p.0 - q.0, p.1 - q.1),
        None => (0, 0),
    }
}

/// The sign of a number.
pub open spec fn sign(n: int) -> int {
    if n > 0 {
        1
    } else if n < 0 {
        -1
    } else {
        0
    }
}

impl SheetView {
    /// The frame with the first `k` cells of a connector.
    pub open spec fn wire(self, g: Seq<Glyph>, id: Seq<char>, look: Look, k: int) -> SheetView
        decreases k,
    {
        if k <= 0 {
            self
        } else {
            let c = g[k - 1];
            self.wire(g, id, look, k - 1).char(c.0, c.1, c.2, look).edge_hit(
                span_at(c.0, c.1, 1, 1),
                id,
            )
        }
    }

    /// The frame with an arrowhead at an end that is entered by `d`: one
    /// cell back along the last leg where the end's own cell shows an
    /// anchor.
    pub open spec fn head(self, p: Point, d: Point, anchored: bool, look: Look) -> SheetView {
        let (x, y) = if anchored {
            (p.0 - sign(d.0), p.1 - sign(d.1))
        } else {
            p
        };
        self.char(x, y, head_char(d.0, d.1), look)
    }

    /// The frame with a color button where it is on the canvas.
    pub open spec fn button(
        self,
        target: SelectedView,
        x: u16,
        y: u16,
        ink: Option<Ink>,
        area: Rect,
    ) -> SheetView {
        let r = crate::geometry::rect(x, y, 1, 1).shared(area);
        if r.empty() {
            self
        } else {
            self.hit(r, HitView::ColorMenu(target)).with(
                PaintView::Text {
                    area: r,
                    text: "●"@,
                    look: inked(
                        match ink {
                            Some(i) => i,
                            None => Ink::White,
                        },
                    ),
                },
            )
        }
    }
}

/// The cell that a connector's label starts at.
pub open spec fn label_spot(g: Seq<Glyph>, w: Seq<Point>) -> Point {
    if g.len() > 0 {
        (g[g.len() as int / 2].0, g[g.len() as int / 2].1)
    } else {
        w[0]
    }
}

/// A column or row of the screen, counted anew past the last one.
#[verifier::opaque]
pub open spec fn wrapped(n: int) -> u16 {
    (n % 65536) as u16
}

/// A column or row of the screen, counted anew past the last one.
pub fn wrap(n: i64) -> (r: u16)
    requires
        n >= 0,
    ensures
        r == wrapped(n as int),
{
    proof {
        reveal(wrapped);
    }
    (n % 65536) as u16
}

/// The column or row after one, counted anew past the last one.
fn wrap_next(n: i64) -> (r: u16)
    requires
        n >= 0,
    ensures
        r == wrapped(n + 1),
{
    proof {
        reveal(wrapped);
    }
    ((n % 65536 + 1) % 65536) as u16
}

/// How long a label is, in characters.
pub open spec fn label_width(s: Seq<char>) -> u16 {
    if s.len() <= u16::MAX {
        s.len() as u16
    } else {
        u16::MAX
    }
}

impl AppView {
    /// The color that is previewed on a box or a connector, if any.
    pub open spec fn preview(self, target: SelectedView) -> Option<Option<Ink>> {
        match self.hover_swatch {
            Some((t, c)) => if t == target {
                Some(opt_ink(c))
            } else {
                None
            },
            None => None,
        }
    }

    /// The text that a connector shows: the one being typed, or its label.
    pub open spec fn label_shown(self, e: EdgeView) -> Option<Seq<char>> {
        if self.mode == ModeView::Editing(SelectedView::Edge(e.id)) {
            Some(self.editing_text.push('▏'))
        } else {
            match e.label {
                Some(l) => if l.len() > 0 {
                    Some(l)
                } else {
                    None
                },
                None => None,
            }
        }
    }

    /// The frame with a connector's heads and the anchors at its ends.
    pub open spec fn ends_drawn(
        self,
        s: SheetView,
        e: EdgeView,
        w: Seq<Point>,
        look: Look,
    ) -> SheetView {
        let (first, last) = (w[0], w.last());
        let s1 = if e.to_end is Arrow {
            s.head(
                last,
                entering(last, before_end(w, last, w.len() - 1)),
                e.to_anchor is Some,
                look,
            )
        } else {
            s
        };
        let s2 = if e.from_end is Arrow {
            s1.head(
                first,
                entering(first, after_start(w, first, 1)),
                e.from_anchor is Some,
                look,
            )
        } else {
            s1
        };
        let s3 = if e.from_anchor is Some {
            s2.char(first.0, first.1, '●', look)
        } else {
            s2
        };
        if e.to_anchor is Some {
            s3.char(last.0, last.1, '●', look)
        } else {
            s3
        }
    }

    /// The frame with a connector's label at a point, and its color button
    /// and picker above and below it while it is selected.
    pub open spec fn label_drawn(
        self,
        s: SheetView,
        e: EdgeView,
        m: Point,
        look: Look,
        area: Rect,
    ) -> SheetView {
        let target = SelectedView::Edge(e.id);
        let s1 = match self.label_shown(e) {
            Some(text) => if m.0 >= 0 && m.1 >= 0 {
                s.with(
                    PaintView::Text {
                        area: crate::geometry::rect(
                            wrapped(m.0),
                            wrapped(m.1),
                            label_width(text),
                            1,
                        ),
                        text,
                        look,
                    },
                )
            } else {
                s
            },
            None => s,
        };
        if self.selected == Some(target) && m.0 >= 0 && m.1 > 0 {
            let s2 = s1.button(target, wrapped(m.0), wrapped(m.1 - 1), opt_ink(e.color), area);
            if self.color_picker == Some(target) {
                s2.picker(target, wrapped(m.0), wrapped(m.1 + 1), area)
            } else {
                s2
            }
        } else {
            s1
        }
    }

    /// The frame with one connector: its line, a handle at each end, its
    /// heads and anchors, its label.
    pub open spec fn wire_drawn(
        self,
        s: SheetView,
        e: EdgeView,
        l: Link,
        area: Rect,
        at: Landing,
    ) -> SheetView {
        let target = SelectedView::Edge(e.id);
        let look = line_look(
            shown_ink(opt_ink(e.color), self.preview(target)),
            self.selected == Some(target),
        );
        let w = path(l.from, l.to, l.from_part, l.to_part, l.sides, at);
        let g = drawn_path(w).filter(beside(l.from, l.to));
        let s1 = s.wire(g, e.id, look, g.len() as int).hit(
            span_at(w[0].0, w[0].1, 1, 1),
            HitView::Reattach(e.id, Endpoint::From),
        ).hit(
            span_at(w.last().0, w.last().1, 1, 1),
            HitView::Reattach(e.id, Endpoint::To),
        );
        self.label_drawn(self.ends_drawn(s1, e, w, look), e, label_spot(g, w), look, area)
    }

    /// The frame with the first `k` connectors, but for the one that is
    /// being pointed elsewhere and those that have no box at an end.
    pub open spec fn wires_drawn(
        self,
        s: SheetView,
        links: Seq<Option<Link>>,
        loose: Option<Seq<char>>,
        area: Rect,
        at: Landing,
        k: int,
    ) -> SheetView
        decreases k,
    {
        if k <= 0 {
            s
        } else {
            let before = self.wires_drawn(s, links, loose, area, at, k - 1);
            let e = self.canvas.edges[k - 1];
            match links[k - 1] {
                Some(l) => if loose == Some(e.id) {
                    before
                } else {
                    self.wire_drawn(before, e, l, area, at)
                },
                None => before,
            }
        }
    }

    /// The frame with every connector.
    pub open spec fn edges_drawn(
        self,
        s: SheetView,
        live: Option<(Seq<char>, ScreenRect)>,
        loose: Option<Seq<char>>,
        area: Rect,
        at: Landing,
    ) -> SheetView {
        let scene = Scene { canvas: self.canvas, camera: self.camera, area, live };
        self.wires_drawn(s, scene.links(), loose, area, at, self.canvas.edges.len() as int)
    }
}

/// The cells of a path that are in neither of two boxes.
pub fn cells_beside(g: Vec<(i64, i64, char)>, from: ScreenRect, to: ScreenRect) -> (r: Vec<
    (i64, i64, char),
>)
    requires
        from.near(),
        to.near(),
    ensures
        glyphs(r@) == glyphs(g@).filter(beside(from, to)),
{
    let ghost all = glyphs(g@);
    let ghost keep = beside(from, to);
    let mut out: Vec<(i64, i64, char)> = Vec::new();
    let mut i: usize = 0;
    proof {
        reveal(Seq::filter);
        assert(glyphs(out@) =~= all.take(0).filter(keep));
    }
    while i < g.len()
        invariant
            i <= g@.len(),
            from.near(),
            to.near(),
            all == glyphs(g@),
            keep == beside(from, to),
            glyphs(out@) == all.take(i as int).filter(keep),
        decreases g@.len() - i,
    {
        let ghost before = glyphs(out@);
        let (x, y, ch) = g[i];
        proof {
            reveal(Seq::filter);
            assert(all.take(i + 1).drop_last() =~= all.take(i as int));
            assert(all.take(i + 1).last() == all[i as int]);
        }
        if !inside(from, x, y) && !inside(to, x, y) {
            out.push((x, y, ch));
            proof {
                assert(glyphs(out@) =~= before.push(all[i as int]));
            }
        }
        i += 1;
    }
    proof {
        assert(all.take(all.len() as int) =~= all);
    }
    out
}

fn sign_of(n: i64) -> (r: i64)
    ensures
        r == sign(n as int),
{
    if n > 0 {
        1
    } else if n < 0 {
        -1
    } else {
        0
    }
}

/// Which way a path enters its last point.
fn dir_into_last(w: &Vec<(i64, i64)>) -> (r: (i64, i64))
    requires
        w@.len() >= 2,
        all_near(points(w@)),
    ensures
        ({
            let p = points(w@);
            (r.0 as int, r.1 as int) == entering(
                p.last(),
                before_end(p, p.last(), p.len() - 1),
            )
        }),
        -4 * crate::route::FAR <= r.0 <= 4 * crate::route::FAR,
        -4 * crate::route::FAR <= r.1 <= 4 * crate::route::FAR,
{
    let ghost p = points(w@);
    let end: (i64, i64) = w[w.len() - 1];
    let mut k: usize = w.len() - 1;
    proof {
        assert(near(p.last()));
    }
    while k > 0
        invariant
            k < w@.len(),
            p == points(w@),
            all_near(p),
            near(p.last()),
            p.last() == (end.0 as int, end.1 as int),
            before_end(p, p.last(), p.len() - 1) == before_end(p, p.last(), k as int),
        decreases k,
    {
        let q: (i64, i64) = w[k - 1];
        proof {
            assert(p[k - 1] == (q.0 as int, q.1 as int));
            assert(near(p[k - 1]));
        }
        if q.0 != end.0 || q.1 != end.1 {
            return (end.0 - q.0, end.1 - q.1);
        }
        k -= 1;
    }
    (0, 0)
}

/// Which way a path enters its first point, walked backwards.
fn dir_into_first(w: &Vec<(i64, i64)>) -> (r: (i64, i64))
    requires
        w@.len() >= 2,
        all_near(points(w@)),
    ensures
        ({
            let p = points(w@);
            (r.0 as int, r.1 as int) == entering(p[0], after_start(p, p[0], 1))
        }),
        -4 * crate::route::FAR <= r.0 <= 4 * crate::route::FAR,
        -4 * crate::route::FAR <= r.1 <= 4 * crate::route::FAR,
{
    let ghost p = points(w@);
    let end: (i64, i64) = w[0];
    let mut k: usize = 1;
    proof {
        assert(near(p[0]));
    }
    while k < w.len()
        invariant
            1 <= k <= w@.len(),
            p == points(w@),
            all_near(p),
            near(p[0]),
            p[0] == (end.0 as int, end.1 as int),
            after_start(p, p[0], 1) == after_start(p, p[0], k as int),
        decreases w@.len() - k,
    {
        let q: (i64, i64) = w[k];
        proof {
            assert(p[k as int] == (q.0 as int, q.1 as int));
            assert(near(p[k as int]));
        }
        if q.0 != end.0 || q.1 != end.1 {
            return (end.0 - q.0, end.1 - q.1);
        }
        k += 1;
    }
    (0, 0)
}

/// Draws an arrowhead at an end.
fn draw_head(sheet: &mut Sheet, p: (i64, i64), d: (i64, i64), anchored: bool, look: Look)
    requires
        old(sheet).wf(),
        near((p.0 as int, p.1 as int)),
        -4 * crate::route::FAR <= d.0 <= 4 * crate::route::FAR,
        -4 * crate::route::FAR <= d.1 <= 4 * crate::route::FAR,
    ensures
        final(sheet).wf(),
        final(sheet)@ == old(sheet)@.head(
            (p.0 as int, p.1 as int),
            (d.0 as int, d.1 as int),
            anchored,
            look,
        ),
{
    let (x, y): (i64, i64) = if anchored {
        (p.0 - sign_of(d.0), p.1 - sign_of(d.1))
    } else {
        p
    };
    sheet.put_char(x, y, arrow_char(d.0, d.1), look);
}

/// Draws a color button where it is on the canvas.
pub fn draw_button(
    sheet: &mut Sheet,
    target: &Selected,
    x: u16,
    y: u16,
    ink: Option<Ink>,
    area: Rect,
)
    requires
        old(sheet).wf(),
    ensures
        final(sheet).wf(),
        final(sheet)@ == old(sheet)@.button(target@, x, y, ink, area),
{
    let spot: Rect = Rect::new(x, y, 1, 1);
    let r: Rect = spot.intersection(&area);
    if !r.is_empty() {
        sheet.put_hit(r, HitTarget::ColorMenu(target.clone()));
        let shown: Ink = match ink {
            Some(i) => i,
            None => Ink::White,
        };
        sheet.paint(Paint::Text { area: r, text: "●".to_owned(), look: Look::fg(shown) });
    }
}

/// Draws a connector's cells.
fn draw_wire(sheet: &mut Sheet, g: &Vec<(i64, i64, char)>, id: &str, look: Look)
    requires
        old(sheet).wf(),
    ensures
        final(sheet).wf(),
        final(sheet)@ == old(sheet)@.wire(glyphs(g@), id@, look, g@.len() as int),
{
    let ghost all = glyphs(g@);
    let mut i: usize = 0;
    while i < g.len()
        invariant
            i <= g@.len(),
            all == glyphs(g@),
            sheet.wf(),
            sheet@ == old(sheet)@.wire(all, id@, look, i as int),
        decreases g@.len() - i,
    {
        let (x, y, ch) = g[i];
        proof {
            assert(all[i as int] == (x as int, y as int, ch));
        }
        sheet.put_char(x, y, ch, look);
        sheet.put_edge_hit(rect_at(x, y), id.to_owned());
        i += 1;
    }
}

impl App {
    /// The color that is previewed on a box or a connector, if any.
    pub fn preview_of(&self, target: &Selected) -> (r: Option<Option<Ink>>)
        ensures
            r == self@.preview(target@),
    {
        match &self.hover_swatch {
            Some((t, c)) => if t.same(target) {
                Some(ink_opt(c))
            } else {
                None
            },
            None => None,
        }
    }

    /// The text that a connector shows.
    fn label_text(&self, e: &Edge) -> (r: Option<String>)
        ensures
            opt_view(r) == self@.label_shown(e@),
    {
        match &self.mode {
            Mode::Editing(Selected::Edge(id)) => {
                if same_str(id.as_str(), e.id.as_str()) {
                    let mut s: String = self.editing_text.clone();
                    s.append("▏");
                    proof {
                        reveal_strlit("▏");
                        assert(s@ =~= self.editing_text@.push('▏'));
                    }
                    return Some(s);
                }
            },
            _ => {},
        }
        match &e.label {
            Some(l) => {
                proof {
                    reveal_strlit("");
                    if l@.len() == 0 {
                        assert(l@ =~= ""@);
                    }
                }
                if same_str(l.as_str(), "") {
                    None
                } else {
                    Some(l.clone())
                }
            },
            None => None,
        }
    }

    /// Draws a connector's heads and the anchors at its ends.
    fn draw_ends(&self, sheet: &mut Sheet, e: &Edge, w: &Vec<(i64, i64)>, look: Look)
        requires
            old(sheet).wf(),
            w@.len() >= 2,
            all_near(points(w@)),
        ensures
            final(sheet).wf(),
            final(sheet)@ == self@.ends_drawn(old(sheet)@, e@, points(w@), look),
    {
        let ghost p = points(w@);
        let first: (i64, i64) = w[0];
        let last: (i64, i64) = w[w.len() - 1];
        proof {
            assert(near(p[0]) && near(p.last()));
        }
        if e.to_end == EdgeEnd::Arrow {
            draw_head(sheet, last, dir_into_last(w), e.to_anchor.is_some(), look);
        }
        if e.from_end == EdgeEnd::Arrow {
            draw_head(sheet, first, dir_into_first(w), e.from_anchor.is_some(), look);
        }
        if e.from_anchor.is_some() {
            sheet.put_char(first.0, first.1, '●', look);
        }
        if e.to_anchor.is_some() {
            sheet.put_char(last.0, last.1, '●', look);
        }
    }

    /// Draws a connector's label, and its color button and picker while it
    /// is selected.
    fn draw_label(&self, sheet: &mut Sheet, e: &Edge, m: (i64, i64), look: Look, area: Rect)
        requires
            old(sheet).wf(),
        ensures
            final(sheet).wf(),
            final(sheet)@ == self@.label_drawn(
                old(sheet)@,
                e@,
                (m.0 as int, m.1 as int),
                look,
                area,
            ),
    {
        match self.label_text(e) {
            Some(text) => {
                if m.0 >= 0 && m.1 >= 0 {
                    let n: usize = to_chars(text.as_str()).len();
                    let width: u16 = if n <= u16::MAX as usize {
                        n as u16
                    } else {
                        u16::MAX
                    };
                    let spot: Rect = Rect::new(wrap(m.0), wrap(m.1), width, 1);
                    sheet.paint(Paint::Text { area: spot, text, look });
                }
            },
            None => {},
        }
        let target: Selected = Selected::Edge(e.id.clone());
        if is_selected(&self.selected, &target) && m.0 >= 0 && m.1 > 0 {
            let x: u16 = wrap(m.0);
            draw_button(sheet, &target, x, wrap(m.1 - 1), ink_opt(&e.color), area);
            if is_selected(&self.color_picker, &target) {
                draw_color_picker(sheet, &target, x, wrap_next(m.1), area);
            }
        }
    }

    /// Draws one connector.
    fn draw_edge<F: Fn(Fraction, u16) -> u16>(
        &self,
        sheet: &mut Sheet,
        e: &Edge,
        l: Link,
        area: Rect,
        at: &F,
    )
        requires
            old(sheet).wf(),
            l.from.near(),
            l.to.near(),
            steady(*at),
        ensures
            final(sheet).wf(),
            final(sheet)@ == self@.wire_drawn(old(sheet)@, e@, l, area, landing(*at)),
    {
        let target: Selected = Selected::Edge(e.id.clone());
        let shown: Option<Ink> = match self.preview_of(&target) {
            Some(p) => p,
            None => ink_opt(&e.color),
        };
        let look: Look = style_of(shown, is_selected(&self.selected, &target));
        let w: Vec<(i64, i64)> = route(l.from, l.to, l.from_part, l.to_part, l.sides, at);
        let g: Vec<(i64, i64, char)> = cells_beside(route_glyphs(&w), l.from, l.to);
        let ghost p = points(w@);
        let ghost cells = glyphs(g@);
        draw_wire(sheet, &g, e.id.as_str(), look);
        let first: (i64, i64) = w[0];
        let last: (i64, i64) = w[w.len() - 1];
        proof {
            assert(p[0] == (first.0 as int, first.1 as int));
            assert(p.last() == (last.0 as int, last.1 as int));
        }
        sheet.put_hit(
            rect_at(first.0, first.1),
            HitTarget::Reattach(e.id.clone(), Endpoint::From),
        );
        sheet.put_hit(
            rect_at(last.0, last.1),
            HitTarget::Reattach(e.id.clone(), Endpoint::To),
        );
        self.draw_ends(sheet, e, &w, look);
        let m: (i64, i64) = if g.len() > 0 {
            let (x, y, _) = g[g.len() / 2];
            (x, y)
        } else {
            first
        };
        proof {
            assert((m.0 as int, m.1 as int) == label_spot(cells, p));
        }
        self.draw_label(sheet, e, m, look, area);
    }

    /// Draws every connector.
    pub fn draw_edges<F: Fn(Fraction, u16) -> u16>(
        &self,
        sheet: &mut Sheet,
        live: &Option<(String, ScreenRect)>,
        loose: &Option<String>,
        area: Rect,
        at: &F,
    )
        requires
            old(sheet).wf(),
            live_near(*live),
            self.canvas.edges@.len() < usize::MAX,
            steady(*at),
        ensures
            final(sheet).wf(),
            final(sheet)@ == self@.edges_drawn(
                old(sheet)@,
                live_view(*live),
                opt_view(*loose),
                area,
                landing(*at),
            ),
    {
        let links: Vec<Option<Link>> = find_links(&self.canvas, self.camera, area, live);
        let ghost want = links@;
        let mut i: usize = 0;
        while i < links.len()
            invariant
                i <= links@.len(),
                want == links@,
                links@.len() == self.canvas.edges@.len(),
                forall|k: int|
                    0 <= k < links@.len() ==> (#[trigger] links@[k] matches Some(l)
                        ==> l.from.near() && l.to.near()),
                steady(*at),
                sheet.wf(),
                sheet@ == self@.wires_drawn(
                    old(sheet)@,
                    want,
                    opt_view(*loose),
                    area,
                    landing(*at),
                    i as int,
                ),
            decreases links@.len() - i,
        {
            let e: &Edge = &self.canvas.edges[i];
            proof {
                assert(self@.canvas.edges[i as int] == e@);
            }
            match links[i] {
                Some(l) => {
                    let is_loose: bool = match loose {
                        Some(id) => same_str(id.as_str(), e.id.as_str()),
                        None => false,
                    };
                    if !is_loose {
                        self.draw_edge(sheet, e, l, area, at);
                    }
                },
                None => {},
            }
            i += 1;
        }
    }
}

} // verus!

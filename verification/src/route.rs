//! The path that a connector takes between two boxes on screen.

use vstd::prelude::*;

use crate::geometry::{max, min, Rect};
use crate::model::{CellAnchor, Side, WorldRect};
use crate::table::Fraction;

verus! {

/// A box's place on screen. Positions can be negative, for a box that hangs
/// off the visible area's left or top.
#[derive(Debug, Clone, Copy, PartialEq, Eq, Structural)]
pub struct ScreenRect {
    pub x: i64,
    pub y: i64,
    pub width: u16,
    pub height: u16,
}

/// How far off the screen a box can be: as far as a board reaches.
pub const FAR: i64 = 0x10_0000_0000;

/// A point on screen.
pub type Point = (int, int);

/// A point and the character that is drawn there.
pub type Glyph = (int, int, char);

/// How many cells into a span a part of it lands.
pub type Landing = spec_fn(Fraction, u16) -> u16;

/// How many cells into a span `at` puts a part of it.
pub open spec fn landing<F: Fn(Fraction, u16) -> u16>(at: F) -> Landing {
    |part: Fraction, span: u16| choose|off: u16| at.ensures((part, span), off)
}

/// Whether `at` puts the same part of the same span on one cell of it,
/// whenever it is asked.
pub open spec fn steady<F: Fn(Fraction, u16) -> u16>(at: F) -> bool {
    &&& forall|part: Fraction, span: u16| #[trigger] at.requires((part, span))
    &&& forall|part: Fraction, span: u16, a: u16, b: u16| #[trigger]
        at.ensures((part, span), a) && #[trigger] at.ensures((part, span), b) ==> a == b
}

impl ScreenRect {
    /// Whether a box is where a board can put it.
    pub open spec fn near(self) -> bool {
        -FAR <= self.x <= FAR && -FAR <= self.y <= FAR
    }

    /// The first column to the right.
    pub open spec fn x_end(self) -> int {
        self.x + self.width
    }

    /// The first row below.
    pub open spec fn y_end(self) -> int {
        self.y + self.height
    }

    /// The cell in the middle.
    pub open spec fn middle(self) -> Point {
        (self.x + self.width as int / 2, self.y + self.height as int / 2)
    }

    /// Whether a point lies in the box.
    pub open spec fn has(self, p: Point) -> bool {
        self.x <= p.0 < self.x_end() && self.y <= p.1 < self.y_end()
    }

    /// Whether the box lies in an area as a whole.
    pub open spec fn within(self, area: Rect) -> bool {
        &&& self.x >= area.x
        &&& self.y >= area.y
        &&& self.x_end() <= area.x_end()
        &&& self.y_end() <= area.y_end()
    }

    /// The part of the box in an area, none where there is none.
    pub open spec fn clipped(self, area: Rect) -> Option<Rect> {
        let x0 = max(self.x as int, area.x as int);
        let y0 = max(self.y as int, area.y as int);
        let x1 = min(self.x_end(), area.x_end() as int);
        let y1 = min(self.y_end(), area.y_end() as int);
        if x0 >= x1 || y0 >= y1 {
            None
        } else {
            Some(
                Rect {
                    x: x0 as u16,
                    y: y0 as u16,
                    width: (x1 - x0) as u16,
                    height: (y1 - y0) as u16,
                },
            )
        }
    }

    pub fn right(&self) -> (r: i64)
        requires
            self.near(),
        ensures
            r == self.x_end(),
    {
        self.x + self.width as i64
    }

    pub fn bottom(&self) -> (r: i64)
        requires
            self.near(),
        ensures
            r == self.y_end(),
    {
        self.y + self.height as i64
    }
}

/// Where a box is on screen, given the board's cell at the area's corner.
pub open spec fn on_screen(rect: WorldRect, camera: (i32, i32), area: Rect) -> ScreenRect {
    ScreenRect {
        x: (rect.x - camera.0 + area.x) as i64,
        y: (rect.y - camera.1 + area.y) as i64,
        width: rect.width,
        height: rect.height,
    }
}

/// Where a box is on screen.
pub fn to_screen(rect: WorldRect, camera: (i32, i32), area: Rect) -> (r: ScreenRect)
    ensures
        r == on_screen(rect, camera, area),
        r.near(),
{
    ScreenRect {
        x: rect.x as i64 - camera.0 as i64 + area.x as i64,
        y: rect.y as i64 - camera.1 as i64 + area.y as i64,
        width: rect.width,
        height: rect.height,
    }
}

/// A rectangle of the screen as a box's place.
pub open spec fn place_of(r: Rect) -> ScreenRect {
    ScreenRect { x: r.x as i64, y: r.y as i64, width: r.width, height: r.height }
}

/// A rectangle of the screen as a box's place.
pub fn screen_place(r: Rect) -> (s: ScreenRect)
    ensures
        s == place_of(r),
        s.near(),
{
    ScreenRect { x: r.x as i64, y: r.y as i64, width: r.width, height: r.height }
}

fn larger(a: i64, b: i64) -> (r: i64)
    ensures
        r == max(a as int, b as int),
{
    if a < b {
        b
    } else {
        a
    }
}

fn smaller(a: i64, b: i64) -> (r: i64)
    ensures
        r == min(a as int, b as int),
{
    if a < b {
        a
    } else {
        b
    }
}

/// The part of a box that is on the canvas, none when none of it is.
pub fn clip(rect: ScreenRect, area: Rect) -> (r: Option<Rect>)
    requires
        rect.near(),
    ensures
        r == rect.clipped(area),
{
    let x0: i64 = larger(rect.x, area.x as i64);
    let y0: i64 = larger(rect.y, area.y as i64);
    let x1: i64 = smaller(rect.right(), area.right() as i64);
    let y1: i64 = smaller(rect.bottom(), area.bottom() as i64);
    if x0 >= x1 || y0 >= y1 {
        return None;
    }
    Some(Rect { x: x0 as u16, y: y0 as u16, width: (x1 - x0) as u16, height: (y1 - y0) as u16 })
}

/// Whether a box is on the canvas as a whole.
pub fn fully_visible(rect: ScreenRect, area: Rect) -> (r: bool)
    requires
        rect.near(),
    ensures
        r == rect.within(area),
{
    rect.x >= area.x as i64 && rect.y >= area.y as i64 && rect.right() <= area.right() as i64
        && rect.bottom() <= area.bottom() as i64
}

/// A box's middle cell.
pub fn center(rect: ScreenRect) -> (r: (i64, i64))
    requires
        rect.near(),
    ensures
        (r.0 as int, r.1 as int) == rect.middle(),
{
    (rect.x + rect.width as i64 / 2, rect.y + rect.height as i64 / 2)
}

/// Whether a point lies in a box.
pub fn inside(rect: ScreenRect, x: i64, y: i64) -> (r: bool)
    requires
        rect.near(),
    ensures
        r == rect.has((x as int, y as int)),
{
    x >= rect.x && x < rect.x + rect.width as i64 && y >= rect.y && y < rect.y
        + rect.height as i64
}

/// A rectangle at a point, an empty one at the screen's corner where the
/// point is off the screen.
pub open spec fn span_at(x: int, y: int, width: u16, height: u16) -> Rect {
    if x < 0 || y < 0 || x > u16::MAX || y > u16::MAX {
        Rect { x: 0, y: 0, width: 0, height: 0 }
    } else {
        crate::geometry::rect(x as u16, y as u16, width, height)
    }
}

/// A rectangle at a point, empty where the point is off the screen.
pub fn rect_span(x: i64, y: i64, width: u16, height: u16) -> (r: Rect)
    ensures
        r == span_at(x as int, y as int, width, height),
{
    if x < 0 || y < 0 || x > u16::MAX as i64 || y > u16::MAX as i64 {
        return Rect { x: 0, y: 0, width: 0, height: 0 };
    }
    Rect::new(x as u16, y as u16, width, height)
}

/// The cell at a point, empty where the point is off the screen.
pub fn rect_at(x: i64, y: i64) -> (r: Rect)
    ensures
        r == span_at(x as int, y as int, 1, 1),
{
    rect_span(x, y, 1, 1)
}

/// Whether a table anchor pins a connector end to leave from the top or
/// bottom (a column) or the left or right (a row). A full cell pins neither
/// on its own.
pub open spec fn pinned_vertical(anchor: Option<CellAnchor>) -> Option<bool> {
    match anchor {
        Some(a) => if a.col is Some && a.row is None {
            Some(true)
        } else if a.row is Some && a.col is None {
            Some(false)
        } else {
            None
        },
        None => None,
    }
}

/// Whether a table anchor pins a connector end to leave from the top or
/// bottom, or from the left or right.
pub fn forced_vertical(anchor: Option<CellAnchor>) -> (r: Option<bool>)
    ensures
        r == pinned_vertical(anchor),
{
    match anchor {
        Some(a) => if a.col.is_some() && a.row.is_none() {
            Some(true)
        } else if a.row.is_some() && a.col.is_none() {
            Some(false)
        } else {
            None
        },
        None => None,
    }
}

/// The side of `this` on an axis that faces `other`.
pub open spec fn facing(this: ScreenRect, other: ScreenRect, vertical: bool) -> Side {
    if vertical {
        if other.middle().1 > this.middle().1 {
            Side::Bottom
        } else {
            Side::Top
        }
    } else if other.middle().0 > this.middle().0 {
        Side::Right
    } else {
        Side::Left
    }
}

/// The top or bottom, or the left or right side of `this` that faces
/// `other`.
pub fn side_toward(this: ScreenRect, other: ScreenRect, vertical: bool) -> (r: Side)
    requires
        this.near(),
        other.near(),
    ensures
        r == facing(this, other, vertical),
{
    let (tcx, tcy) = center(this);
    let (ocx, ocy) = center(other);
    if vertical {
        if ocy > tcy {
            Side::Bottom
        } else {
            Side::Top
        }
    } else if ocx > tcx {
        Side::Right
    } else {
        Side::Left
    }
}

/// Whether two boxes share a row.
pub open spec fn share_row(a: ScreenRect, b: ScreenRect) -> bool {
    max(a.y as int, b.y as int) < min(a.y_end(), b.y_end())
}

/// Whether two boxes share a column.
pub open spec fn share_col(a: ScreenRect, b: ScreenRect) -> bool {
    max(a.x as int, b.x as int) < min(a.x_end(), b.x_end())
}

/// The side that a connector leaves `from` on and the side that it arrives
/// at `to` on.
pub open spec fn auto_sides(from: ScreenRect, to: ScreenRect) -> (Side, Side) {
    if share_row(from, to) {
        if from.x <= to.x {
            (Side::Right, Side::Left)
        } else {
            (Side::Left, Side::Right)
        }
    } else if share_col(from, to) {
        if from.y <= to.y {
            (Side::Bottom, Side::Top)
        } else {
            (Side::Top, Side::Bottom)
        }
    } else {
        (
            if to.middle().0 > from.middle().0 {
                Side::Right
            } else {
                Side::Left
            },
            if to.middle().1 > from.middle().1 {
                Side::Top
            } else {
                Side::Bottom
            },
        )
    }
}

/// Which side of `from` a connector leaves on and which side of `to` it
/// arrives on, before any coordinate is picked, so that several connectors
/// sharing a side can be spread across it.
pub fn sides_for(from: ScreenRect, to: ScreenRect) -> (r: (Side, Side))
    requires
        from.near(),
        to.near(),
    ensures
        r == auto_sides(from, to),
{
    if larger(from.y, to.y) < smaller(from.bottom(), to.bottom()) {
        return if from.x <= to.x {
            (Side::Right, Side::Left)
        } else {
            (Side::Left, Side::Right)
        };
    }
    if larger(from.x, to.x) < smaller(from.right(), to.right()) {
        return if from.y <= to.y {
            (Side::Bottom, Side::Top)
        } else {
            (Side::Top, Side::Bottom)
        };
    }
    let (fcx, fcy) = center(from);
    let (tcx, tcy) = center(to);
    let from_side: Side = if tcx > fcx {
        Side::Right
    } else {
        Side::Left
    };
    let to_side: Side = if tcy > fcy {
        Side::Top
    } else {
        Side::Bottom
    };
    (from_side, to_side)
}

/// Whether a side runs along a box's rows.
pub open spec fn is_horizontal(s: Side) -> bool {
    s is Left || s is Right
}

/// How many steps a side has between its first and its last cell.
pub open spec fn side_span(rect: ScreenRect, side: Side) -> u16 {
    let n = if is_horizontal(side) {
        rect.height
    } else {
        rect.width
    };
    if n > 0 {
        (n - 1) as u16
    } else {
        0
    }
}

/// The cell `off` steps along a side, one past the border.
pub open spec fn side_cell(rect: ScreenRect, side: Side, off: u16) -> Point {
    match side {
        Side::Right => (rect.x_end(), rect.y + off),
        Side::Left => (rect.x - 1, rect.y + off),
        Side::Bottom => (rect.x + off, rect.y_end()),
        Side::Top => (rect.x + off, rect.y - 1),
    }
}

/// Where a connector attaches on a side of a box, a part of the way along
/// it.
pub open spec fn attach(rect: ScreenRect, side: Side, part: Fraction, at: Landing) -> Point {
    side_cell(rect, side, at(part, side_span(rect, side)))
}

/// Half of a whole number, towards 0.
pub open spec fn halved(n: int) -> int {
    if n >= 0 {
        n / 2
    } else {
        -((-n) / 2)
    }
}

/// The path between two points when both ends name a side: a bend on
/// whichever axis fits their exit directions. Between a horizontal and a
/// vertical exit, the one of the two bends that does not run under a box.
pub open spec fn bent(
    from: ScreenRect,
    to: ScreenRect,
    e: Point,
    n: Point,
    from_side: Side,
    to_side: Side,
) -> Seq<Point> {
    if is_horizontal(from_side) && is_horizontal(to_side) {
        let mid = halved(e.0 + n.0);
        seq![e, (mid, e.1), (mid, n.1), n]
    } else if !is_horizontal(from_side) && !is_horizontal(to_side) {
        let mid = halved(e.1 + n.1);
        seq![e, (e.0, mid), (n.0, mid), n]
    } else {
        let across = (n.0, e.1);
        let along = (e.0, n.1);
        let (first, second) = if is_horizontal(from_side) {
            (across, along)
        } else {
            (along, across)
        };
        if from.has(first) || to.has(first) {
            seq![e, second, n]
        } else {
            seq![e, first, n]
        }
    }
}

/// The path that a connector takes between two boxes: a straight line when
/// they share a row or column, one right-angle bend otherwise. The parts
/// place its ends along whichever sides get used. `sides`, when given, are
/// the ones used, whatever the boxes' positions suggest.
pub open spec fn path(
    from: ScreenRect,
    to: ScreenRect,
    from_part: Fraction,
    to_part: Fraction,
    sides: Option<(Side, Side)>,
    at: Landing,
) -> Seq<Point> {
    match sides {
        Some((fs, ts)) => bent(
            from,
            to,
            attach(from, fs, from_part, at),
            attach(to, ts, to_part, at),
            fs,
            ts,
        ),
        None => if share_row(from, to) {
            let y0 = max(from.y as int, to.y as int);
            let y = y0 + at(from_part, (min(from.y_end(), to.y_end()) - y0 - 1) as u16);
            if from.x <= to.x {
                seq![(from.x_end(), y), (to.x - 1, y)]
            } else {
                seq![(from.x - 1, y), (to.x_end(), y)]
            }
        } else if share_col(from, to) {
            let x0 = max(from.x as int, to.x as int);
            let x = x0 + at(from_part, (min(from.x_end(), to.x_end()) - x0 - 1) as u16);
            if from.y <= to.y {
                seq![(x, from.y_end()), (x, to.y - 1)]
            } else {
                seq![(x, from.y - 1), (x, to.y_end())]
            }
        } else {
            let (fs, ts) = auto_sides(from, to);
            let e = attach(from, fs, from_part, at);
            let n = attach(to, ts, to_part, at);
            seq![e, (n.0, e.1), n]
        },
    }
}

/// The points of a list.
pub open spec fn points(v: Seq<(i64, i64)>) -> Seq<Point> {
    Seq::new(v.len(), |i: int| (v[i].0 as int, v[i].1 as int))
}

/// Whether a point is where a path of a board can run.
pub open spec fn near(p: Point) -> bool {
    -2 * FAR <= p.0 <= 2 * FAR && -2 * FAR <= p.1 <= 2 * FAR
}

/// Whether the points of a path are where a path of a board can run.
pub open spec fn all_near(w: Seq<Point>) -> bool {
    forall|i: int| 0 <= i < w.len() ==> near(#[trigger] w[i])
}

/// Asks how many cells into a span a part of it lands.
fn land<F: Fn(Fraction, u16) -> u16>(at: &F, part: Fraction, span: u16) -> (r: u16)
    requires
        steady(*at),
    ensures
        r == landing(*at)(part, span),
{
    let off: u16 = at(part, span);
    proof {
        assert(at.ensures((part, span), off));
        let chosen = choose|o: u16| at.ensures((part, span), o);
        assert(at.ensures((part, span), chosen));
    }
    off
}

/// Where a connector attaches on a side of a box, a part of the way along
/// it: one cell past the border, so that an arrowhead never lands on the
/// border itself.
pub fn side_point<F: Fn(Fraction, u16) -> u16>(
    rect: ScreenRect,
    side: Side,
    part: Fraction,
    at: &F,
) -> (r: (i64, i64))
    requires
        rect.near(),
        steady(*at),
    ensures
        (r.0 as int, r.1 as int) == attach(rect, side, part, landing(*at)),
        near((r.0 as int, r.1 as int)),
{
    let n: u16 = match side {
        Side::Left => rect.height,
        Side::Right => rect.height,
        Side::Top => rect.width,
        Side::Bottom => rect.width,
    };
    let span: u16 = if n > 0 {
        n - 1
    } else {
        0
    };
    let off: i64 = land(at, part, span) as i64;
    match side {
        Side::Right => (rect.right(), rect.y + off),
        Side::Left => (rect.x - 1, rect.y + off),
        Side::Bottom => (rect.x + off, rect.bottom()),
        Side::Top => (rect.x + off, rect.y - 1),
    }
}

fn halve(n: i64) -> (r: i64)
    requires
        n > i64::MIN,
    ensures
        r == halved(n as int),
{
    if n >= 0 {
        n / 2
    } else {
        -((-n) / 2)
    }
}

fn runs_along_rows(s: Side) -> (r: bool)
    ensures
        r == is_horizontal(s),
{
    match s {
        Side::Left => true,
        Side::Right => true,
        _ => false,
    }
}

/// A connector's path when both ends name a side.
fn route_explicit<F: Fn(Fraction, u16) -> u16>(
    from: ScreenRect,
    to: ScreenRect,
    from_part: Fraction,
    to_part: Fraction,
    from_side: Side,
    to_side: Side,
    at: &F,
) -> (r: Vec<(i64, i64)>)
    requires
        from.near(),
        to.near(),
        steady(*at),
    ensures
        points(r@) == path(
            from,
            to,
            from_part,
            to_part,
            Some((from_side, to_side)),
            landing(*at),
        ),
        r@.len() >= 2,
        all_near(points(r@)),
{
    let e: (i64, i64) = side_point(from, from_side, from_part, at);
    let n: (i64, i64) = side_point(to, to_side, to_part, at);
    let ghost want = path(from, to, from_part, to_part, Some((from_side, to_side)), landing(*at));
    let from_h: bool = runs_along_rows(from_side);
    let to_h: bool = runs_along_rows(to_side);
    let mut out: Vec<(i64, i64)> = Vec::new();
    out.push(e);
    if from_h && to_h {
        let mid: i64 = halve(e.0 + n.0);
        out.push((mid, e.1));
        out.push((mid, n.1));
    } else if !from_h && !to_h {
        let mid: i64 = halve(e.1 + n.1);
        out.push((e.0, mid));
        out.push((n.0, mid));
    } else {
        let (first, second) = if from_h {
            ((n.0, e.1), (e.0, n.1))
        } else {
            ((e.0, n.1), (n.0, e.1))
        };
        if inside(from, first.0, first.1) || inside(to, first.0, first.1) {
            out.push(second);
        } else {
            out.push(first);
        }
    }
    out.push(n);
    proof {
        assert(points(out@) =~= want);
    }
    out
}

/// The corner-to-corner path that a connector takes between two boxes.
pub fn route<F: Fn(Fraction, u16) -> u16>(
    from: ScreenRect,
    to: ScreenRect,
    from_part: Fraction,
    to_part: Fraction,
    sides: Option<(Side, Side)>,
    at: &F,
) -> (r: Vec<(i64, i64)>)
    requires
        from.near(),
        to.near(),
        steady(*at),
    ensures
        points(r@) == path(from, to, from_part, to_part, sides, landing(*at)),
        r@.len() >= 2,
        all_near(points(r@)),
{
    match sides {
        Some((fs, ts)) => {
            return route_explicit(from, to, from_part, to_part, fs, ts, at);
        },
        None => {},
    }
    let ghost want = path(from, to, from_part, to_part, sides, landing(*at));
    let mut out: Vec<(i64, i64)> = Vec::new();
    let y0: i64 = larger(from.y, to.y);
    let y1: i64 = smaller(from.bottom(), to.bottom());
    if y0 < y1 {
        let y: i64 = y0 + land(at, from_part, (y1 - y0 - 1) as u16) as i64;
        if from.x <= to.x {
            out.push((from.right(), y));
            out.push((to.x - 1, y));
        } else {
            out.push((from.x - 1, y));
            out.push((to.right(), y));
        }
        proof {
            assert(points(out@) =~= want);
        }
        return out;
    }
    let x0: i64 = larger(from.x, to.x);
    let x1: i64 = smaller(from.right(), to.right());
    if x0 < x1 {
        let x: i64 = x0 + land(at, from_part, (x1 - x0 - 1) as u16) as i64;
        if from.y <= to.y {
            out.push((x, from.bottom()));
            out.push((x, to.y - 1));
        } else {
            out.push((x, from.y - 1));
            out.push((x, to.bottom()));
        }
        proof {
            assert(points(out@) =~= want);
        }
        return out;
    }
    let (fs, ts) = sides_for(from, to);
    let e: (i64, i64) = side_point(from, fs, from_part, at);
    let n: (i64, i64) = side_point(to, ts, to_part, at);
    out.push(e);
    out.push((n.0, e.1));
    out.push(n);
    proof {
        assert(points(out@) =~= want);
    }
    out
}

/// The line character of a leg.
pub open spec fn line_char(a: Point, b: Point) -> char {
    if a.1 == b.1 {
        '─'
    } else {
        '│'
    }
}

/// How far apart two numbers are.
pub open spec fn gap(a: int, b: int) -> nat {
    if a < b {
        (b - a) as nat
    } else {
        (a - b) as nat
    }
}

/// Which way `b` lies from `a`.
pub open spec fn heading(a: int, b: int) -> int {
    if b > a {
        1
    } else {
        -1
    }
}

/// The cells of a leg, its first point left out.
pub open spec fn leg(a: Point, b: Point) -> Seq<Glyph> {
    if a.0 == b.0 {
        Seq::new(
            gap(a.1, b.1),
            |i: int| (a.0, a.1 + (i + 1) * heading(a.1, b.1), line_char(a, b)),
        )
    } else {
        Seq::new(
            gap(a.0, b.0),
            |i: int| (a.0 + (i + 1) * heading(a.0, b.0), a.1, line_char(a, b)),
        )
    }
}

/// The cells of the first `k` legs of a path.
pub open spec fn legs(w: Seq<Point>, k: int) -> Seq<Glyph>
    decreases k,
{
    if k <= 0 {
        seq![(w[0].0, w[0].1, line_char(w[0], w[1]))]
    } else {
        legs(w, k - 1) + leg(w[k - 1], w[k])
    }
}

/// Which way a leg goes.
pub open spec fn leg_dir(a: Point, b: Point) -> char {
    if a.1 == b.1 {
        if b.0 > a.0 {
            'R'
        } else {
            'L'
        }
    } else if b.1 > a.1 {
        'D'
    } else {
        'U'
    }
}

/// The character where two legs meet.
pub open spec fn bend_char(prev: Point, corner: Point, next: Point) -> char {
    match (leg_dir(prev, corner), leg_dir(corner, next)) {
        ('R', 'D') => '┐',
        ('U', 'L') => '┐',
        ('R', 'U') => '┘',
        ('D', 'L') => '┘',
        ('L', 'D') => '┌',
        ('U', 'R') => '┌',
        ('L', 'U') => '└',
        ('D', 'R') => '└',
        _ => '+',
    }
}

/// The last cell of a path at a point.
pub open spec fn last_cell(g: Seq<Glyph>, p: Point) -> Option<int>
    decreases g.len(),
{
    if g.len() == 0 {
        None
    } else if g.last().0 == p.0 && g.last().1 == p.1 {
        Some(g.len() - 1)
    } else {
        last_cell(g.drop_last(), p)
    }
}

/// The cells of a path with its first `k` bends drawn in.
pub open spec fn with_bends(g: Seq<Glyph>, w: Seq<Point>, k: int) -> Seq<Glyph>
    decreases k,
{
    if k <= 0 {
        g
    } else {
        let before = with_bends(g, w, k - 1);
        match last_cell(before, w[k]) {
            Some(i) => before.update(
                i,
                (before[i].0, before[i].1, bend_char(w[k - 1], w[k], w[k + 1])),
            ),
            None => before,
        }
    }
}

/// A path in box-drawing characters, each bend with the character that its
/// two legs meet at.
pub open spec fn drawn_path(w: Seq<Point>) -> Seq<Glyph> {
    with_bends(legs(w, w.len() - 1), w, w.len() - 2)
}

/// The cells of a list.
pub open spec fn glyphs(v: Seq<(i64, i64, char)>) -> Seq<Glyph> {
    Seq::new(v.len(), |i: int| (v[i].0 as int, v[i].1 as int, v[i].2))
}

fn segment_char(a: (i64, i64), b: (i64, i64)) -> (r: char)
    ensures
        r == line_char((a.0 as int, a.1 as int), (b.0 as int, b.1 as int)),
{
    if a.1 == b.1 {
        '─'
    } else {
        '│'
    }
}

/// Adds the cells of a leg, its first point left out.
fn push_leg(out: &mut Vec<(i64, i64, char)>, a: (i64, i64), b: (i64, i64))
    requires
        near((a.0 as int, a.1 as int)),
        near((b.0 as int, b.1 as int)),
    ensures
        glyphs(final(out)@) == glyphs(old(out)@) + leg(
            (a.0 as int, a.1 as int),
            (b.0 as int, b.1 as int),
        ),
{
    let ghost before = glyphs(out@);
    let ghost cells = leg((a.0 as int, a.1 as int), (b.0 as int, b.1 as int));
    let ch: char = segment_char(a, b);
    let vertical: bool = a.0 == b.0;
    let (start, end): (i64, i64) = if vertical {
        (a.1, b.1)
    } else {
        (a.0, b.0)
    };
    let up: bool = end > start;
    let n: i64 = if up {
        end - start
    } else {
        start - end
    };
    let mut i: i64 = 0;
    proof {
        assert(before + cells.take(0) =~= before);
    }
    while i < n
        invariant
            0 <= i <= n == cells.len(),
            near((a.0 as int, a.1 as int)),
            near((b.0 as int, b.1 as int)),
            n == gap(start as int, end as int),
            up == (end > start),
            vertical == (a.0 == b.0),
            start == (if vertical {
                a.1
            } else {
                a.0
            }),
            end == (if vertical {
                b.1
            } else {
                b.0
            }),
            ch == line_char((a.0 as int, a.1 as int), (b.0 as int, b.1 as int)),
            cells == leg((a.0 as int, a.1 as int), (b.0 as int, b.1 as int)),
            glyphs(out@) == before + cells.take(i as int),
        decreases n - i,
    {
        let v: i64 = if up {
            start + (i + 1)
        } else {
            start - (i + 1)
        };
        let ghost had = glyphs(out@);
        if vertical {
            out.push((a.0, v, ch));
        } else {
            out.push((v, a.1, ch));
        }
        proof {
            let h = heading(start as int, end as int);
            assert((i + 1) * h == v - start) by (nonlinear_arith)
                requires
                    h == 1 && v == start + (i + 1) || h == -1 && v == start - (i + 1),
            ;
            assert(glyphs(out@) =~= had.push(cells[i as int]));
            assert((before + cells.take(i as int)).push(cells[i as int]) =~= before + cells.take(
                i + 1,
            ));
        }
        i += 1;
    }
    proof {
        assert(cells.take(n as int) =~= cells);
    }
}

fn direction(a: (i64, i64), b: (i64, i64)) -> (r: char)
    ensures
        r == leg_dir((a.0 as int, a.1 as int), (b.0 as int, b.1 as int)),
{
    if a.1 == b.1 {
        if b.0 > a.0 {
            'R'
        } else {
            'L'
        }
    } else if b.1 > a.1 {
        'D'
    } else {
        'U'
    }
}

fn corner_char(prev: (i64, i64), corner: (i64, i64), next: (i64, i64)) -> (r: char)
    ensures
        r == bend_char(
            (prev.0 as int, prev.1 as int),
            (corner.0 as int, corner.1 as int),
            (next.0 as int, next.1 as int),
        ),
{
    match (direction(prev, corner), direction(corner, next)) {
        ('R', 'D') => '┐',
        ('U', 'L') => '┐',
        ('R', 'U') => '┘',
        ('D', 'L') => '┘',
        ('L', 'D') => '┌',
        ('U', 'R') => '┌',
        ('L', 'U') => '└',
        ('D', 'R') => '└',
        _ => '+',
    }
}

/// The index of the last cell at a point.
fn find_last(out: &Vec<(i64, i64, char)>, p: (i64, i64)) -> (r: Option<usize>)
    ensures
        match r {
            Some(i) => last_cell(glyphs(out@), (p.0 as int, p.1 as int)) == Some(i as int) && i
                < out@.len(),
            None => last_cell(glyphs(out@), (p.0 as int, p.1 as int)) is None,
        },
{
    let ghost all = glyphs(out@);
    let ghost q = (p.0 as int, p.1 as int);
    let mut i: usize = out.len();
    proof {
        assert(all.take(all.len() as int) =~= all);
    }
    while i > 0
        invariant
            i <= out@.len(),
            all == glyphs(out@),
            q == (p.0 as int, p.1 as int),
            last_cell(all, q) == last_cell(all.take(i as int), q),
        decreases i,
    {
        proof {
            assert(all.take(i as int).drop_last() =~= all.take(i - 1));
            assert(all.take(i as int).last() == all[i - 1]);
        }
        i -= 1;
        if out[i].0 == p.0 && out[i].1 == p.1 {
            return Some(i);
        }
    }
    None
}

/// Walks a path, each leg horizontal or vertical, and draws it in
/// box-drawing characters.
pub fn route_glyphs(waypoints: &Vec<(i64, i64)>) -> (r: Vec<(i64, i64, char)>)
    requires
        waypoints@.len() >= 2,
        all_near(points(waypoints@)),
    ensures
        glyphs(r@) == drawn_path(points(waypoints@)),
{
    let ghost w = points(waypoints@);
    let mut out: Vec<(i64, i64, char)> = Vec::new();
    out.push((waypoints[0].0, waypoints[0].1, segment_char(waypoints[0], waypoints[1])));
    proof {
        assert(glyphs(out@) =~= legs(w, 0));
    }
    let mut i: usize = 1;
    while i < waypoints.len()
        invariant
            1 <= i <= waypoints@.len(),
            w == points(waypoints@),
            all_near(w),
            glyphs(out@) == legs(w, i - 1),
        decreases waypoints@.len() - i,
    {
        proof {
            assert(near(w[i - 1]) && near(w[i as int]));
        }
        push_leg(&mut out, waypoints[i - 1], waypoints[i]);
        i += 1;
    }
    let ghost plain = legs(w, w.len() - 1);
    let mut k: usize = 1;
    while k < waypoints.len() - 1
        invariant
            1 <= k <= waypoints@.len() - 1,
            w == points(waypoints@),
            glyphs(out@) == with_bends(plain, w, k - 1),
        decreases waypoints@.len() - k,
    {
        let ghost before = glyphs(out@);
        let ch: char = corner_char(waypoints[k - 1], waypoints[k], waypoints[k + 1]);
        match find_last(&out, waypoints[k]) {
            Some(j) => {
                let (x, y, _) = out[j];
                out.set(j, (x, y, ch));
                proof {
                    assert(glyphs(out@) =~= before.update(
                        j as int,
                        (before[j as int].0, before[j as int].1, ch),
                    ));
                }
            },
            None => {},
        }
        k += 1;
    }
    out
}

/// The head of an arrow that goes by `dx` and `dy`.
pub open spec fn head_char(dx: int, dy: int) -> char {
    if gap(dx, 0) >= gap(dy, 0) {
        if dx >= 0 {
            '>'
        } else {
            '<'
        }
    } else if dy >= 0 {
        'v'
    } else {
        '^'
    }
}

pub fn arrow_char(dx: i64, dy: i64) -> (r: char)
    requires
        dx > i64::MIN,
        dy > i64::MIN,
    ensures
        r == head_char(dx as int, dy as int),
{
    let ax: i64 = if dx >= 0 {
        dx
    } else {
        -dx
    };
    let ay: i64 = if dy >= 0 {
        dy
    } else {
        -dy
    };
    if ax >= ay {
        if dx >= 0 {
            '>'
        } else {
            '<'
        }
    } else if dy >= 0 {
        'v'
    } else {
        '^'
    }
}

} // verus!

//! Where a board's connectors attach on screen: to which sides of their
//! boxes, and how far along each side.

use vstd::prelude::*;

use crate::geometry::Rect;
use crate::model::{edge_views, Canvas, CanvasView, CellAnchor, Edge, EdgeView, Side};
use crate::paint::{display_text, shown_text};
use crate::route::{
    auto_sides, facing, forced_vertical, is_horizontal, on_screen, pinned_vertical, side_toward,
    sides_for, to_screen, ScreenRect,
};
use crate::table::{
    col_center, col_center_frac, parse, row_center, row_center_frac, table_of, table_view, Cells,
    Fraction, Table,
};
use crate::text::same_str;

verus! {

/// A board as it is shown: through a camera, in an area, with one box where
/// a drag has it right now rather than where the board still says it sits.
pub ghost struct Scene {
    pub canvas: CanvasView,
    pub camera: (i32, i32),
    pub area: Rect,
    pub live: Option<(Seq<char>, ScreenRect)>,
}

/// The view of a box that is being dragged.
pub open spec fn live_view(live: Option<(String, ScreenRect)>) -> Option<(Seq<char>, ScreenRect)> {
    match live {
        Some((id, r)) => Some((id@, r)),
        None => None,
    }
}

/// Whether a box that is being dragged is where a board can put it.
pub open spec fn live_near(live: Option<(String, ScreenRect)>) -> bool {
    live matches Some((_, r)) ==> r.near()
}

/// Where a connector runs: between which boxes on screen, how far along
/// their sides, and on which sides where those are fixed.
#[derive(Clone, Copy)]
pub struct Link {
    pub from: ScreenRect,
    pub to: ScreenRect,
    pub from_part: Fraction,
    pub to_part: Fraction,
    pub sides: Option<(Side, Side)>,
}

/// The grid that a box shows, if its text is a table.
pub open spec fn grid_of(c: CanvasView, id: Seq<char>) -> Option<Cells> {
    match c.node(id) {
        Some(n) => table_of(shown_text(n.kind)),
        None => None,
    }
}

/// How far along a side of a box a table anchor sits: at its column's
/// middle on the top and bottom, at its row's on the left and right. None
/// where the anchor names nothing on that axis or there is no such row or
/// column.
pub open spec fn anchor_part(
    grid: Option<Cells>,
    anchor: Option<CellAnchor>,
    side: Side,
    rect: ScreenRect,
) -> Option<Fraction> {
    match (grid, anchor) {
        (Some(t), Some(a)) => if is_horizontal(side) {
            match a.row {
                Some(r) => row_center(t, r as int, rect.height),
                None => None,
            }
        } else {
            match a.col {
                Some(c) => col_center(t, c as int, rect.width),
                None => None,
            }
        },
        _ => None,
    }
}

impl Scene {
    /// Where a box is on screen.
    pub open spec fn rect(self, id: Seq<char>) -> Option<ScreenRect> {
        if self.live is Some && (self.live->0).0 == id {
            Some((self.live->0).1)
        } else {
            match self.canvas.node(id) {
                Some(n) => Some(on_screen(n.rect, self.camera, self.area)),
                None => None,
            }
        }
    }

    /// Where both boxes of a connector are.
    pub open spec fn ends(self, e: EdgeView) -> Option<(ScreenRect, ScreenRect)> {
        match (self.rect(e.from), self.rect(e.to)) {
            (Some(f), Some(t)) => Some((f, t)),
            _ => None,
        }
    }

    /// The sides that a connector leaves and arrives on: its own where it
    /// names both; else those that a table anchor pins, and those that the
    /// boxes' positions suggest.
    pub open spec fn sides(self, e: EdgeView) -> Option<(Side, Side)> {
        match self.ends(e) {
            None => None,
            Some((f, t)) => match (e.from_side, e.to_side) {
                (Some(fs), Some(ts)) => Some((fs, ts)),
                _ => Some(
                    (
                        match pinned_vertical(e.from_anchor) {
                            Some(v) => facing(f, t, v),
                            None => auto_sides(f, t).0,
                        },
                        match pinned_vertical(e.to_anchor) {
                            Some(v) => facing(t, f, v),
                            None => auto_sides(f, t).1,
                        },
                    ),
                ),
            },
        }
    }

    /// How many of the first `k` connectors leave a box on a side.
    pub open spec fn leaving(self, id: Seq<char>, side: Side, k: int) -> nat
        decreases k,
    {
        if k <= 0 {
            0
        } else {
            let e = self.canvas.edges[k - 1];
            let rest = self.leaving(id, side, k - 1);
            if e.from == id && self.sides(e) is Some && (self.sides(e)->0).0 == side {
                rest + 1
            } else {
                rest
            }
        }
    }

    /// How many of the first `k` connectors arrive at a box on a side.
    pub open spec fn arriving(self, id: Seq<char>, side: Side, k: int) -> nat
        decreases k,
    {
        if k <= 0 {
            0
        } else {
            let e = self.canvas.edges[k - 1];
            let rest = self.arriving(id, side, k - 1);
            if e.to == id && self.sides(e) is Some && (self.sides(e)->0).1 == side {
                rest + 1
            } else {
                rest
            }
        }
    }

    /// How far along its side connector `i` leaves: those that share a box
    /// and a side are spread across it evenly, in their order on the board.
    pub open spec fn from_spread(self, i: int) -> Fraction {
        let e = self.canvas.edges[i];
        let side = (self.sides(e)->0).0;
        Fraction {
            num: (self.leaving(e.from, side, i) + 1) as u64,
            den: (self.leaving(e.from, side, self.canvas.edges.len() as int) + 1) as u64,
        }
    }

    /// How far along its side connector `i` arrives.
    pub open spec fn to_spread(self, i: int) -> Fraction {
        let e = self.canvas.edges[i];
        let side = (self.sides(e)->0).1;
        Fraction {
            num: (self.arriving(e.to, side, i) + 1) as u64,
            den: (self.arriving(e.to, side, self.canvas.edges.len() as int) + 1) as u64,
        }
    }

    /// Where connector `i` runs. An end's table anchor, where it can be
    /// used, takes the place of the even spread, for the other end too if
    /// that has none of its own; such a connector runs between its sides
    /// as if it named them.
    pub open spec fn link(self, i: int) -> Option<Link> {
        let e = self.canvas.edges[i];
        match self.ends(e) {
            None => None,
            Some((f, t)) => {
                let (fs, ts) = self.sides(e)->0;
                let fa = anchor_part(grid_of(self.canvas, e.from), e.from_anchor, fs, f);
                let ta = anchor_part(grid_of(self.canvas, e.to), e.to_anchor, ts, t);
                let (from_part, to_part) = match (fa, ta) {
                    (Some(a), None) => (a, a),
                    (None, Some(b)) => (b, b),
                    (Some(a), Some(b)) => (a, b),
                    (None, None) => (self.from_spread(i), self.to_spread(i)),
                };
                let sides = match (e.from_side, e.to_side) {
                    (Some(fs), Some(ts)) => Some((fs, ts)),
                    _ => if fa is Some || ta is Some {
                        Some((fs, ts))
                    } else {
                        None
                    },
                };
                Some(Link { from: f, to: t, from_part, to_part, sides })
            },
        }
    }

    /// Where every connector runs.
    pub open spec fn links(self) -> Seq<Option<Link>> {
        Seq::new(self.canvas.edges.len(), |i: int| self.link(i))
    }
}

/// Where a box is on screen.
pub fn find_rect(
    canvas: &Canvas,
    camera: (i32, i32),
    area: Rect,
    live: &Option<(String, ScreenRect)>,
    id: &str,
) -> (r: Option<ScreenRect>)
    requires
        live_near(*live),
    ensures
        r == (Scene { canvas: canvas@, camera, area, live: live_view(*live) }).rect(id@),
        r matches Some(s) ==> s.near(),
{
    match live {
        Some((live_id, r)) => {
            if same_str(live_id.as_str(), id) {
                return Some(*r);
            }
        },
        None => {},
    }
    match canvas.node(id) {
        Some(n) => Some(to_screen(n.rect, camera, area)),
        None => None,
    }
}

/// Where both boxes of a connector are, and the sides that it uses.
fn find_ends(
    canvas: &Canvas,
    camera: (i32, i32),
    area: Rect,
    live: &Option<(String, ScreenRect)>,
    e: &Edge,
) -> (r: Option<(ScreenRect, ScreenRect, Side, Side)>)
    requires
        live_near(*live),
    ensures
        ({
            let scene = Scene { canvas: canvas@, camera, area, live: live_view(*live) };
            match r {
                Some((f, t, fs, ts)) => scene.ends(e@) == Some((f, t)) && scene.sides(e@) == Some(
                    (fs, ts),
                ),
                None => scene.ends(e@) is None,
            }
        }),
{
    let f: ScreenRect = match find_rect(canvas, camera, area, live, e.from.as_str()) {
        Some(f) => f,
        None => {
            return None;
        },
    };
    let t: ScreenRect = match find_rect(canvas, camera, area, live, e.to.as_str()) {
        Some(t) => t,
        None => {
            return None;
        },
    };
    match (e.from_side, e.to_side) {
        (Some(fs), Some(ts)) => {
            return Some((f, t, fs, ts));
        },
        _ => {},
    }
    let (auto_fs, auto_ts) = sides_for(f, t);
    let fs: Side = match forced_vertical(e.from_anchor) {
        Some(v) => side_toward(f, t, v),
        None => auto_fs,
    };
    let ts: Side = match forced_vertical(e.to_anchor) {
        Some(v) => side_toward(t, f, v),
        None => auto_ts,
    };
    Some((f, t, fs, ts))
}

/// Whether what was found of a board's connectors is what the scene says.
pub open spec fn found_ends(
    scene: Scene,
    found: Seq<Option<(ScreenRect, ScreenRect, Side, Side)>>,
) -> bool {
    &&& found.len() == scene.canvas.edges.len()
    &&& forall|i: int|
        0 <= i < found.len() ==> match #[trigger] found[i] {
            Some((f, t, fs, ts)) => scene.ends(scene.canvas.edges[i]) == Some((f, t))
                && scene.sides(scene.canvas.edges[i]) == Some((fs, ts)),
            None => scene.ends(scene.canvas.edges[i]) is None && scene.sides(
                scene.canvas.edges[i],
            ) is None,
        }
}

/// How many of the first `upto` connectors leave a box on a side.
fn count_leaving(
    edges: &Vec<Edge>,
    found: &Vec<Option<(ScreenRect, ScreenRect, Side, Side)>>,
    id: &str,
    side: Side,
    upto: usize,
    Ghost(scene): Ghost<Scene>,
) -> (r: usize)
    requires
        scene.canvas.edges == edge_views(edges@),
        found_ends(scene, found@),
        upto <= edges@.len(),
    ensures
        r == scene.leaving(id@, side, upto as int),
        r <= upto,
{
    let mut n: usize = 0;
    let mut i: usize = 0;
    while i < upto
        invariant
            i <= upto <= edges@.len(),
            n <= i,
            scene.canvas.edges == edge_views(edges@),
            found_ends(scene, found@),
            n == scene.leaving(id@, side, i as int),
        decreases upto - i,
    {
        proof {
            assert(scene.canvas.edges[i as int] == edges@[i as int]@);
        }
        match found[i] {
            Some((_, _, fs, _)) => {
                if fs == side && same_str(edges[i].from.as_str(), id) {
                    n += 1;
                }
            },
            None => {},
        }
        i += 1;
    }
    n
}

/// How many of the first `upto` connectors arrive at a box on a side.
fn count_arriving(
    edges: &Vec<Edge>,
    found: &Vec<Option<(ScreenRect, ScreenRect, Side, Side)>>,
    id: &str,
    side: Side,
    upto: usize,
    Ghost(scene): Ghost<Scene>,
) -> (r: usize)
    requires
        scene.canvas.edges == edge_views(edges@),
        found_ends(scene, found@),
        upto <= edges@.len(),
    ensures
        r == scene.arriving(id@, side, upto as int),
        r <= upto,
{
    let mut n: usize = 0;
    let mut i: usize = 0;
    while i < upto
        invariant
            i <= upto <= edges@.len(),
            n <= i,
            scene.canvas.edges == edge_views(edges@),
            found_ends(scene, found@),
            n == scene.arriving(id@, side, i as int),
        decreases upto - i,
    {
        proof {
            assert(scene.canvas.edges[i as int] == edges@[i as int]@);
        }
        match found[i] {
            Some((_, _, _, ts)) => {
                if ts == side && same_str(edges[i].to.as_str(), id) {
                    n += 1;
                }
            },
            None => {},
        }
        i += 1;
    }
    n
}

/// The grid that a box shows, if its text is a table.
pub fn find_grid(canvas: &Canvas, id: &str) -> (r: Option<Table>)
    ensures
        table_view(r) == grid_of(canvas@, id@),
{
    match canvas.node(id) {
        Some(n) => {
            let text: String = display_text(n);
            parse(text.as_str())
        },
        None => None,
    }
}

/// How far along a side of a box a table anchor sits.
pub fn anchor_frac(
    grid: &Option<Table>,
    anchor: Option<CellAnchor>,
    side: Side,
    rect: ScreenRect,
) -> (r: Option<Fraction>)
    ensures
        r == anchor_part(table_view(*grid), anchor, side, rect),
{
    match (grid, anchor) {
        (Some(t), Some(a)) => match side {
            Side::Left => match a.row {
                Some(r) => row_center_frac(t, r, rect.height),
                None => None,
            },
            Side::Right => match a.row {
                Some(r) => row_center_frac(t, r, rect.height),
                None => None,
            },
            _ => match a.col {
                Some(c) => col_center_frac(t, c, rect.width),
                None => None,
            },
        },
        _ => None,
    }
}

/// How far along a side of one of the board's boxes a table anchor sits.
fn anchored(canvas: &Canvas, id: &str, anchor: Option<CellAnchor>, side: Side, rect: ScreenRect) -> (r:
    Option<Fraction>)
    ensures
        r == anchor_part(grid_of(canvas@, id@), anchor, side, rect),
{
    if anchor.is_none() {
        return None;
    }
    let grid: Option<Table> = find_grid(canvas, id);
    anchor_frac(&grid, anchor, side, rect)
}

/// Where every connector runs on screen.
pub fn find_links(
    canvas: &Canvas,
    camera: (i32, i32),
    area: Rect,
    live: &Option<(String, ScreenRect)>,
) -> (r: Vec<Option<Link>>)
    requires
        live_near(*live),
        canvas.edges@.len() < usize::MAX,
    ensures
        r@ == (Scene { canvas: canvas@, camera, area, live: live_view(*live) }).links(),
        forall|i: int|
            0 <= i < r@.len() ==> (#[trigger] r@[i] matches Some(l) ==> l.from.near()
                && l.to.near()),
{
    let ghost scene = Scene { canvas: canvas@, camera, area, live: live_view(*live) };
    let n: usize = canvas.edges.len();
    let mut found: Vec<Option<(ScreenRect, ScreenRect, Side, Side)>> = Vec::new();
    let mut i: usize = 0;
    while i < n
        invariant
            i <= n == canvas.edges@.len(),
            live_near(*live),
            scene == (Scene { canvas: canvas@, camera, area, live: live_view(*live) }),
            found@.len() == i,
            forall|k: int|
                0 <= k < i ==> match #[trigger] found@[k] {
                    Some((f, t, fs, ts)) => scene.ends(scene.canvas.edges[k]) == Some((f, t))
                        && scene.sides(scene.canvas.edges[k]) == Some((fs, ts)),
                    None => scene.ends(scene.canvas.edges[k]) is None && scene.sides(
                        scene.canvas.edges[k],
                    ) is None,
                },
        decreases n - i,
    {
        proof {
            assert(scene.canvas.edges[i as int] == canvas.edges@[i as int]@);
        }
        found.push(find_ends(canvas, camera, area, live, &canvas.edges[i]));
        i += 1;
    }
    let mut out: Vec<Option<Link>> = Vec::new();
    let mut k: usize = 0;
    while k < n
        invariant
            k <= n == canvas.edges@.len(),
            n < usize::MAX,
            live_near(*live),
            scene == (Scene { canvas: canvas@, camera, area, live: live_view(*live) }),
            found_ends(scene, found@),
            out@.len() == k,
            forall|j: int| 0 <= j < k ==> #[trigger] out@[j] == scene.link(j),
            forall|j: int|
                0 <= j < k ==> (#[trigger] out@[j] matches Some(l) ==> l.from.near()
                    && l.to.near()),
        decreases n - k,
    {
        let e: &Edge = &canvas.edges[k];
        proof {
            assert(scene.canvas.edges[k as int] == e@);
            assert(found@[k as int] == found@[k as int]);
        }
        match found[k] {
            None => {
                out.push(None);
            },
            Some((f, t, fs, ts)) => {
                let fa: Option<Fraction> = anchored(
                    canvas,
                    e.from.as_str(),
                    e.from_anchor,
                    fs,
                    f,
                );
                let ta: Option<Fraction> = anchored(canvas, e.to.as_str(), e.to_anchor, ts, t);
                let (from_part, to_part) = match (fa, ta) {
                    (Some(a), None) => (a, a),
                    (None, Some(b)) => (b, b),
                    (Some(a), Some(b)) => (a, b),
                    (None, None) => {
                        let fk: usize = count_leaving(
                            &canvas.edges,
                            &found,
                            e.from.as_str(),
                            fs,
                            k,
                            Ghost(scene),
                        );
                        let fall: usize = count_leaving(
                            &canvas.edges,
                            &found,
                            e.from.as_str(),
                            fs,
                            n,
                            Ghost(scene),
                        );
                        let tk: usize = count_arriving(
                            &canvas.edges,
                            &found,
                            e.to.as_str(),
                            ts,
                            k,
                            Ghost(scene),
                        );
                        let tall: usize = count_arriving(
                            &canvas.edges,
                            &found,
                            e.to.as_str(),
                            ts,
                            n,
                            Ghost(scene),
                        );
                        (
                            Fraction { num: fk as u64 + 1, den: fall as u64 + 1 },
                            Fraction { num: tk as u64 + 1, den: tall as u64 + 1 },
                        )
                    },
                };
                let sides: Option<(Side, Side)> = match (e.from_side, e.to_side) {
                    (Some(own_fs), Some(own_ts)) => Some((own_fs, own_ts)),
                    _ => if fa.is_some() || ta.is_some() {
                        Some((fs, ts))
                    } else {
                        None
                    },
                };
                proof {
                    lemma_ends_near(scene, e@);
                }
                out.push(Some(Link { from: f, to: t, from_part, to_part, sides }));
            },
        }
        k += 1;
    }
    proof {
        assert(out@ =~= scene.links());
    }
    out
}

proof fn lemma_ends_near(scene: Scene, e: EdgeView)
    requires
        scene.live matches Some((_, r)) ==> r.near(),
    ensures
        scene.ends(e) matches Some((f, t)) ==> f.near() && t.near(),
{
}

proof fn lemma_counts_grow(scene: Scene, id: Seq<char>, side: Side, i: int, j: int)
    requires
        0 <= i <= j,
    ensures
        scene.leaving(id, side, i) <= scene.leaving(id, side, j) <= j,
        scene.arriving(id, side, i) <= scene.arriving(id, side, j) <= j,
    decreases j - i, j,
{
    if i < j {
        lemma_counts_grow(scene, id, side, i, j - 1);
    } else if j > 0 {
        lemma_counts_grow(scene, id, side, j - 1, j - 1);
    }
}

/// Connectors that leave one box on one side leave it at different parts of
/// that side, in their order on the board, and none at its very ends.
pub proof fn lemma_leaving_connectors_are_spread(scene: Scene, i: int, j: int)
    requires
        0 <= i < j < scene.canvas.edges.len(),
        scene.canvas.edges.len() < u64::MAX,
        scene.canvas.edges[i].from == scene.canvas.edges[j].from,
        scene.sides(scene.canvas.edges[i]) is Some,
        scene.sides(scene.canvas.edges[j]) is Some,
        (scene.sides(scene.canvas.edges[i])->0).0 == (scene.sides(scene.canvas.edges[j])->0).0,
    ensures
        scene.from_spread(i).den == scene.from_spread(j).den,
        0 < scene.from_spread(i).num < scene.from_spread(j).num < scene.from_spread(j).den,
{
    let e = scene.canvas.edges[i];
    let side = (scene.sides(e)->0).0;
    let n = scene.canvas.edges.len() as int;
    lemma_counts_grow(scene, e.from, side, i + 1, j);
    lemma_counts_grow(scene, e.from, side, j + 1, n);
}

/// Connectors that arrive at one box on one side arrive at different parts
/// of that side, in their order on the board, and none at its very ends.
pub proof fn lemma_arriving_connectors_are_spread(scene: Scene, i: int, j: int)
    requires
        0 <= i < j < scene.canvas.edges.len(),
        scene.canvas.edges.len() < u64::MAX,
        scene.canvas.edges[i].to == scene.canvas.edges[j].to,
        scene.sides(scene.canvas.edges[i]) is Some,
        scene.sides(scene.canvas.edges[j]) is Some,
        (scene.sides(scene.canvas.edges[i])->0).1 == (scene.sides(scene.canvas.edges[j])->0).1,
    ensures
        scene.to_spread(i).den == scene.to_spread(j).den,
        0 < scene.to_spread(i).num < scene.to_spread(j).num < scene.to_spread(j).den,
{
    let e = scene.canvas.edges[i];
    let side = (scene.sides(e)->0).1;
    let n = scene.canvas.edges.len() as int;
    lemma_counts_grow(scene, e.to, side, i + 1, j);
    lemma_counts_grow(scene, e.to, side, j + 1, n);
}

} // verus!

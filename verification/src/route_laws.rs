//! What holds of every connector's path.

use vstd::prelude::*;

use crate::geometry::{max, min, Rect};
use crate::model::Side;
use crate::route::{
    auto_sides, bend_char, drawn_path, gap, head_char, heading, last_cell, leg, legs, path, place_of, share_col,
    share_row, side_cell, side_span, with_bends, Glyph, Landing, Point, ScreenRect,
};
use crate::table::Fraction;

verus! {

/// Whether every leg of a path is horizontal or vertical.
pub open spec fn orthogonal(w: Seq<Point>) -> bool {
    forall|i: int|
        0 <= i < w.len() - 1 ==> (#[trigger] w[i]).0 == w[i + 1].0 || w[i].1 == w[i + 1].1
}

/// A connector never runs diagonally: every leg of its path is horizontal
/// or vertical, and it has one at least.
pub proof fn lemma_path_is_orthogonal(
    from: ScreenRect,
    to: ScreenRect,
    from_part: Fraction,
    to_part: Fraction,
    sides: Option<(Side, Side)>,
    at: Landing,
)
    ensures
        path(from, to, from_part, to_part, sides, at).len() >= 2,
        orthogonal(path(from, to, from_part, to_part, sides, at)),
{
}

/// A side's cell lies one past the border, never in the box itself.
pub proof fn lemma_side_is_outside(rect: ScreenRect, side: Side, off: u16)
    ensures
        !rect.has(side_cell(rect, side, off)),
{
}

/// Whether a point is on a side of a box, one past the border.
pub open spec fn on_side(rect: ScreenRect, side: Side, p: Point) -> bool {
    exists|off: u16| off <= side_span(rect, side) && p == #[trigger] side_cell(rect, side, off)
}

/// Where both sides are given, a path starts on the one and ends on the
/// other; where they are not, it does so on those that the boxes' positions
/// suggest. Either way it starts and ends beside its boxes, not in them.
pub proof fn lemma_path_joins_its_sides(
    from: ScreenRect,
    to: ScreenRect,
    from_part: Fraction,
    to_part: Fraction,
    sides: Option<(Side, Side)>,
    at: Landing,
)
    requires
        forall|part: Fraction, span: u16| #[trigger] at(part, span) <= span,
    ensures
        ({
            let w = path(from, to, from_part, to_part, sides, at);
            let (fs, ts) = match sides {
                Some(s) => s,
                None => auto_sides(from, to),
            };
            &&& on_side(from, fs, w[0])
            &&& on_side(to, ts, w.last())
            &&& !from.has(w[0])
            &&& !to.has(w.last())
        }),
{
    let w = path(from, to, from_part, to_part, sides, at);
    let (fs, ts) = match sides {
        Some(s) => s,
        None => auto_sides(from, to),
    };
    if sides is None && share_row(from, to) {
        let y0 = max(from.y as int, to.y as int);
        let span = (min(from.y_end(), to.y_end()) - y0 - 1) as u16;
        let off = at(from_part, span);
        let a = (y0 + off - from.y) as u16;
        let b = (y0 + off - to.y) as u16;
        assert(w[0] == side_cell(from, fs, a));
        assert(w.last() == side_cell(to, ts, b));
    } else if sides is None && share_col(from, to) {
        let x0 = max(from.x as int, to.x as int);
        let span = (min(from.x_end(), to.x_end()) - x0 - 1) as u16;
        let off = at(from_part, span);
        let a = (x0 + off - from.x) as u16;
        let b = (x0 + off - to.x) as u16;
        assert(w[0] == side_cell(from, fs, a));
        assert(w.last() == side_cell(to, ts, b));
    } else {
        assert(w[0] == side_cell(from, fs, at(from_part, side_span(from, fs))));
        assert(w.last() == side_cell(to, ts, at(to_part, side_span(to, ts))));
    }
}

/// Whether two cells touch.
pub open spec fn one_apart(a: Glyph, b: Glyph) -> bool {
    gap(a.0, b.0) + gap(a.1, b.1) == 1
}

/// Whether each cell of a path touches the next.
pub open spec fn connected(g: Seq<Glyph>) -> bool {
    forall|i: int| 0 <= i < g.len() - 1 ==> one_apart(#[trigger] g[i], g[i + 1])
}

proof fn lemma_leg(a: Point, b: Point)
    requires
        a.0 == b.0 || a.1 == b.1,
    ensures
        connected(leg(a, b)),
        leg(a, b).len() > 0 ==> gap(leg(a, b)[0].0, a.0) + gap(leg(a, b)[0].1, a.1) == 1,
        leg(a, b).len() > 0 ==> leg(a, b).last().0 == b.0 && leg(a, b).last().1 == b.1,
        leg(a, b).len() == 0 ==> a == b,
{
    let g = leg(a, b);
    let h = if a.0 == b.0 {
        heading(a.1, b.1)
    } else {
        heading(a.0, b.0)
    };
    assert forall|i: int| 0 <= i < g.len() - 1 implies one_apart(#[trigger] g[i], g[i + 1]) by {
        assert((i + 2) * h == (i + 1) * h + h) by (nonlinear_arith);
    }
    if g.len() > 0 {
        let n = g.len() as int;
        assert((n - 1 + 1) * h == n * h);
        assert(h == 1 ==> n * h == n) by (nonlinear_arith);
        assert(h == -1 ==> n * h == -n) by (nonlinear_arith);
        assert((0 + 1) * h == h);
    }
}

proof fn lemma_legs(w: Seq<Point>, k: int)
    requires
        w.len() >= 2,
        0 <= k < w.len(),
        orthogonal(w),
    ensures
        legs(w, k).len() >= 1,
        connected(legs(w, k)),
        legs(w, k)[0].0 == w[0].0 && legs(w, k)[0].1 == w[0].1,
        legs(w, k).last().0 == w[k].0 && legs(w, k).last().1 == w[k].1,
    decreases k,
{
    if k > 0 {
        lemma_legs(w, k - 1);
        let before = legs(w, k - 1);
        let more = leg(w[k - 1], w[k]);
        assert(w[k - 1].0 == w[k - 1 + 1].0 || w[k - 1].1 == w[k - 1 + 1].1);
        lemma_leg(w[k - 1], w[k]);
        let all = legs(w, k);
        assert forall|i: int| 0 <= i < all.len() - 1 implies one_apart(
            #[trigger] all[i],
            all[i + 1],
        ) by {
            if i < before.len() - 1 {
                assert(one_apart(before[i], before[i + 1]));
            } else if i == before.len() - 1 {
                assert(all[i] == before.last());
                assert(all[i + 1] == more[0]);
            } else {
                let j = i - before.len();
                assert(one_apart(more[j], more[j + 1]));
            }
        }
        if more.len() > 0 {
            assert(all.last() == more.last());
        } else {
            assert(all =~= before);
        }
    }
}

proof fn lemma_last_cell(g: Seq<Glyph>, p: Point)
    ensures
        last_cell(g, p) matches Some(i) ==> 0 <= i < g.len() && g[i].0 == p.0 && g[i].1 == p.1,
    decreases g.len(),
{
    if g.len() > 0 {
        lemma_last_cell(g.drop_last(), p);
    }
}

proof fn lemma_bends_keep_cells(g: Seq<Glyph>, w: Seq<Point>, k: int)
    ensures
        with_bends(g, w, k).len() == g.len(),
        forall|i: int|
            0 <= i < g.len() ==> (#[trigger] with_bends(g, w, k)[i]).0 == g[i].0 && with_bends(
                g,
                w,
                k,
            )[i].1 == g[i].1,
    decreases k,
{
    if k > 0 {
        lemma_bends_keep_cells(g, w, k - 1);
        lemma_last_cell(with_bends(g, w, k - 1), w[k]);
    }
}

/// A drawn path is one unbroken line of cells from its first point to its
/// last.
pub proof fn lemma_drawn_path_is_connected(w: Seq<Point>)
    requires
        w.len() >= 2,
        orthogonal(w),
    ensures
        drawn_path(w).len() >= 1,
        connected(drawn_path(w)),
        drawn_path(w)[0].0 == w[0].0 && drawn_path(w)[0].1 == w[0].1,
        drawn_path(w).last().0 == w.last().0 && drawn_path(w).last().1 == w.last().1,
{
    let plain = legs(w, w.len() - 1);
    lemma_legs(w, w.len() - 1);
    lemma_bends_keep_cells(plain, w, w.len() - 2);
    let g = drawn_path(w);
    assert forall|i: int| 0 <= i < g.len() - 1 implies one_apart(#[trigger] g[i], g[i + 1]) by {
        assert(one_apart(plain[i], plain[i + 1]));
    }
}

/// What is drawn of a box lies on the canvas and in the box, and a box that
/// is on the canvas as a whole is drawn whole.
pub proof fn lemma_clipped(rect: ScreenRect, area: Rect)
    ensures
        rect.clipped(area) matches Some(r) ==> {
            &&& area.x <= r.x && area.y <= r.y
            &&& r.x + r.width <= area.x_end() && r.y + r.height <= area.y_end()
            &&& rect.x <= r.x && rect.y <= r.y
            &&& r.x + r.width <= rect.x_end() && r.y + r.height <= rect.y_end()
            &&& r.width > 0 && r.height > 0
        },
        rect.within(area) && rect.width > 0 && rect.height > 0 ==> rect.clipped(area) is Some
            && place_of(rect.clipped(area)->0) == rect,
{
}

/// Whether a line character has an arm that points `dx` columns and `dy`
/// rows on, one of the four ways.
pub open spec fn has_arm(c: char, dx: int, dy: int) -> bool {
    let (left, right) = (dx == -1 && dy == 0, dx == 1 && dy == 0);
    let (up, down) = (dx == 0 && dy == -1, dx == 0 && dy == 1);
    ||| c == '─' && (left || right)
    ||| c == '│' && (up || down)
    ||| c == '┐' && (left || down)
    ||| c == '┘' && (left || up)
    ||| c == '┌' && (right || down)
    ||| c == '└' && (right || up)
}

/// Whether two legs of a path meet at a right angle.
pub open spec fn right_angle(prev: Point, corner: Point, next: Point) -> bool {
    ||| prev.1 == corner.1 && prev.0 != corner.0 && corner.0 == next.0 && corner.1 != next.1
    ||| prev.0 == corner.0 && prev.1 != corner.1 && corner.1 == next.1 && corner.0 != next.0
}

/// One step from `a` towards `b`.
pub open spec fn toward(a: int, b: int) -> int {
    if b > a {
        1
    } else if b < a {
        -1
    } else {
        0
    }
}

/// The character of a bend has two arms: one towards the point that the path
/// comes from and one towards the point that it goes to.
pub proof fn lemma_bend_joins_its_legs(prev: Point, corner: Point, next: Point)
    requires
        right_angle(prev, corner, next),
    ensures
        forall|dx: int, dy: int| #[trigger]
            has_arm(bend_char(prev, corner, next), dx, dy) <==> ({
                ||| dx == toward(corner.0, prev.0) && dy == toward(corner.1, prev.1)
                ||| dx == toward(corner.0, next.0) && dy == toward(corner.1, next.1)
            }),
{
}

/// Whether a path turns at a right angle at each of its inner points, and
/// moves at all.
pub open spec fn turns(w: Seq<Point>) -> bool {
    &&& w.len() >= 2
    &&& orthogonal(w)
    &&& forall|k: int| 0 <= k < w.len() - 1 ==> #[trigger] w[k] != w[k + 1]
    &&& forall|k: int| 0 < k < w.len() - 1 ==> right_angle(w[k - 1], #[trigger] w[k], w[k + 1])
}

/// Whether no two cells are at the same place.
pub open spec fn apart(g: Seq<Glyph>) -> bool {
    forall|i: int, j: int|
        0 <= i < j < g.len() ==> (#[trigger] g[i]).0 != (#[trigger] g[j]).0 || g[i].1 != g[j].1
}

/// Where a path's cells reach its `k`th point.
spec fn reached(w: Seq<Point>, k: int) -> int {
    legs(w, k).len() - 1
}

proof fn lemma_legs_prefix(w: Seq<Point>, k: int, n: int)
    requires
        0 <= k <= n,
    ensures
        legs(w, k).len() <= legs(w, n).len(),
        legs(w, n).take(legs(w, k).len() as int) == legs(w, k),
    decreases n,
{
    if k < n {
        lemma_legs_prefix(w, k, n - 1);
        assert(legs(w, n).take(legs(w, k).len() as int) =~= legs(w, n - 1).take(
            legs(w, k).len() as int,
        ));
    } else {
        assert(legs(w, n).take(legs(w, k).len() as int) =~= legs(w, k));
    }
}

/// The cells of a leg, counted from where it starts.
proof fn lemma_cell(w: Seq<Point>, k: int, i: int)
    requires
        turns(w),
        1 <= k < w.len(),
        reached(w, k - 1) < i <= reached(w, k),
    ensures
        ({
            let g = legs(w, w.len() - 1)[i];
            let n = i - reached(w, k - 1);
            &&& g.0 == w[k - 1].0 + n * toward(w[k - 1].0, w[k].0)
            &&& g.1 == w[k - 1].1 + n * toward(w[k - 1].1, w[k].1)
            &&& g.2 == (if w[k - 1].1 == w[k].1 {
                '─'
            } else {
                '│'
            })
            &&& i < legs(w, w.len() - 1).len()
        }),
{
    lemma_legs_prefix(w, k, w.len() - 1);
    let all = legs(w, w.len() - 1);
    let n = i - reached(w, k - 1);
    assert(all[i] == legs(w, k)[i]) by {
        assert(all.take(legs(w, k).len() as int)[i] == all[i]);
    }
    assert(legs(w, k)[i] == leg(w[k - 1], w[k])[n - 1]);
    assert(w[k - 1] != w[k - 1 + 1]);
    assert(w[k - 1].0 == w[k - 1 + 1].0 || w[k - 1].1 == w[k - 1 + 1].1);
    assert(n * 0 == 0);
}

/// Where a path's cells reach one of its points they are at that point.
proof fn lemma_reached(w: Seq<Point>, k: int)
    requires
        turns(w),
        0 <= k < w.len(),
    ensures
        ({
            let g = legs(w, w.len() - 1)[reached(w, k)];
            &&& g.0 == w[k].0 && g.1 == w[k].1
            &&& 0 <= reached(w, k) < legs(w, w.len() - 1).len()
        }),
        k > 0 ==> reached(w, k - 1) < reached(w, k),
{
    lemma_legs(w, k);
    lemma_legs_prefix(w, k, w.len() - 1);
    let all = legs(w, w.len() - 1);
    assert(all.take(legs(w, k).len() as int)[reached(w, k)] == all[reached(w, k)]);
    if k > 0 {
        assert(w[k - 1] != w[k - 1 + 1]);
        assert(w[k - 1].0 == w[k - 1 + 1].0 || w[k - 1].1 == w[k - 1 + 1].1);
        lemma_leg(w[k - 1], w[k]);
    }
}

/// Which leg a cell lies on.
proof fn lemma_on_a_leg(w: Seq<Point>, n: int, i: int) -> (k: int)
    requires
        turns(w),
        0 <= n < w.len(),
        0 < i <= reached(w, n),
    ensures
        1 <= k <= n,
        reached(w, k - 1) < i <= reached(w, k),
    decreases n,
{
    if n == 0 || i > reached(w, n - 1) {
        n
    } else {
        lemma_on_a_leg(w, n - 1, i)
    }
}

proof fn lemma_found_at(g: Seq<Glyph>, p: Point, i: int)
    requires
        apart(g),
        0 <= i < g.len(),
        g[i].0 == p.0,
        g[i].1 == p.1,
    ensures
        last_cell(g, p) == Some(i),
    decreases g.len(),
{
    let last = g.len() - 1;
    if i < last {
        assert(g[i].0 != g[last].0 || g[i].1 != g[last].1);
        let rest = g.drop_last();
        assert forall|a: int, b: int| 0 <= a < b < rest.len() implies (#[trigger] rest[a]).0 != (
        #[trigger] rest[b]).0 || rest[a].1 != rest[b].1 by {
            assert(rest[a] == g[a] && rest[b] == g[b]);
        }
        lemma_found_at(rest, p, i);
    }
}

/// Bends change the characters at the points where the path turns, and no
/// others.
proof fn lemma_bends(w: Seq<Point>, k: int, i: int)
    requires
        turns(w),
        apart(legs(w, w.len() - 1)),
        0 <= k <= w.len() - 2,
        0 <= i < legs(w, w.len() - 1).len(),
    ensures
        ({
            let g = legs(w, w.len() - 1);
            let h = with_bends(g, w, k);
            &&& forall|j: int|
                1 <= j <= k && i == #[trigger] reached(w, j) ==> h[i].2 == bend_char(
                    w[j - 1],
                    w[j],
                    w[j + 1],
                )
            &&& (forall|j: int| 1 <= j <= k ==> i != #[trigger] reached(w, j)) ==> h[i].2 == g[i].2
        }),
    decreases k,
{
    if k > 0 {
        let g = legs(w, w.len() - 1);
        let before = with_bends(g, w, k - 1);
        lemma_bends(w, k - 1, i);
        lemma_bends_keep_cells(g, w, k - 1);
        lemma_reached(w, k);
        assert forall|a: int, b: int| 0 <= a < b < before.len() implies (#[trigger] before[a]).0
            != (#[trigger] before[b]).0 || before[a].1 != before[b].1 by {
            assert(g[a].0 != g[b].0 || g[a].1 != g[b].1);
        }
        lemma_found_at(before, w[k], reached(w, k));
        assert forall|j: int| 1 <= j < k implies #[trigger] reached(w, j) != reached(w, k) by {
            lemma_rising(w, j, k);
        }
    }
}

proof fn lemma_rising(w: Seq<Point>, j: int, k: int)
    requires
        turns(w),
        0 <= j < k < w.len(),
    ensures
        reached(w, j) < reached(w, k),
    decreases k,
{
    lemma_reached(w, k);
    if j < k - 1 {
        lemma_rising(w, j, k - 1);
    }
}

proof fn lemma_cells_differ(w: Seq<Point>, i: int, j: int)
    requires
        turns(w),
        w.len() <= 4,
        0 < i < j < legs(w, w.len() - 1).len(),
    ensures
        ({
            let g = legs(w, w.len() - 1);
            g[i].0 != g[j].0 || g[i].1 != g[j].1
        }),
{
    let n = w.len() - 1;
    let k = lemma_on_a_leg(w, n, i);
    let l = lemma_on_a_leg(w, n, j);
    lemma_cell(w, k, i);
    lemma_cell(w, l, j);
    if l < k {
        lemma_reached(w, l);
        if l < k - 1 {
            lemma_rising(w, l, k - 1);
        }
    }
    assert(w[k - 1] != w[k - 1 + 1]);
    assert(w[l - 1] != w[l - 1 + 1]);
    assert(w[k - 1].0 == w[k - 1 + 1].0 || w[k - 1].1 == w[k - 1 + 1].1);
    let (a, b) = (i - reached(w, k - 1), j - reached(w, l - 1));
    let (dx, dy) = (toward(w[k - 1].0, w[k].0), toward(w[k - 1].1, w[k].1));
    let (ex, ey) = (toward(w[l - 1].0, w[l].0), toward(w[l - 1].1, w[l].1));
    assert(a * 0 == 0 && b * 0 == 0 && a * 1 == a && b * 1 == b);
    assert(a * (-1) == -a && b * (-1) == -b);
    if l == k + 1 {
        assert(right_angle(w[k - 1], w[k], w[k + 1]));
    } else if l == k + 2 {
        assert(right_angle(w[k - 1], w[k], w[k + 1]));
        assert(right_angle(w[k], w[k + 1], w[k + 2]));
    }
}

/// A path of three legs or fewer that turns at right angles never runs over
/// itself.
proof fn lemma_short_path_is_apart(w: Seq<Point>)
    requires
        turns(w),
        w.len() <= 4,
    ensures
        apart(legs(w, w.len() - 1)),
{
    let g = legs(w, w.len() - 1);
    let n = w.len() - 1;
    lemma_reached(w, 0);
    assert forall|i: int, j: int| 0 <= i < j < g.len() implies (#[trigger] g[i]).0 != (
    #[trigger] g[j]).0 || g[i].1 != g[j].1 by {
        if i > 0 {
            lemma_cells_differ(w, i, j);
        } else {
            let l = lemma_on_a_leg(w, n, j);
            lemma_cell(w, l, j);
            let b = j - reached(w, l - 1);
            assert(b * 0 == 0 && b * 1 == b && b * (-1) == -b);
            assert(w[l - 1] != w[l - 1 + 1]);
            assert(w[l - 1].0 == w[l - 1 + 1].0 || w[l - 1].1 == w[l - 1 + 1].1);
            if l >= 2 {
                assert(right_angle(w[0], w[1], w[2]));
            }
            if l >= 3 {
                assert(right_angle(w[1], w[2], w[3]));
            }
        }
    }
}

/// A drawn line has no gap and no loose arm: at every cell between its first
/// and its last, the character has one arm towards the cell before it, one
/// towards the cell behind it, and no other.
#[verifier::rlimit(60)]
#[verifier::spinoff_prover]
pub proof fn lemma_drawn_cells_join(w: Seq<Point>, i: int)
    requires
        turns(w),
        w.len() <= 4 || apart(legs(w, w.len() - 1)),
        0 < i < drawn_path(w).len() - 1,
    ensures
        ({
            let g = drawn_path(w);
            forall|dx: int, dy: int| #[trigger]
                has_arm(g[i].2, dx, dy) <==> ({
                    ||| dx == g[i - 1].0 - g[i].0 && dy == g[i - 1].1 - g[i].1
                    ||| dx == g[i + 1].0 - g[i].0 && dy == g[i + 1].1 - g[i].1
                })
        }),
{
    let plain = legs(w, w.len() - 1);
    let n = w.len() - 1;
    if w.len() <= 4 {
        lemma_short_path_is_apart(w);
    }
    lemma_bends_keep_cells(plain, w, n - 1);
    lemma_bends(w, n - 1, i);
    let k = lemma_on_a_leg(w, n, i);
    lemma_cell(w, k, i);
    lemma_reached(w, k - 1);
    let (dx, dy) = (toward(w[k - 1].0, w[k].0), toward(w[k - 1].1, w[k].1));
    let m = i - reached(w, k - 1);
    if m > 1 {
        lemma_cell(w, k, i - 1);
        assert((m - 1) * dx == m * dx - dx) by (nonlinear_arith);
        assert((m - 1) * dy == m * dy - dy) by (nonlinear_arith);
    } else {
        assert(1 * dx == dx && 1 * dy == dy);
    }
    assert(w[k - 1] != w[k - 1 + 1]);
    assert(w[k - 1].0 == w[k - 1 + 1].0 || w[k - 1].1 == w[k - 1 + 1].1);
    if i < reached(w, k) {
        lemma_cell(w, k, i + 1);
        assert((m + 1) * dx == m * dx + dx) by (nonlinear_arith);
        assert((m + 1) * dy == m * dy + dy) by (nonlinear_arith);
        assert forall|j: int| 1 <= j <= n - 1 implies i != #[trigger] reached(w, j) by {
            if j < k - 1 {
                lemma_rising(w, j, k - 1);
            } else if j > k {
                lemma_rising(w, k, j);
            }
        }
    } else {
        lemma_reached(w, k);
        assert(k < n);
        lemma_reached(w, k + 1);
        lemma_cell(w, k + 1, i + 1);
        let (ex, ey) = (toward(w[k].0, w[k + 1].0), toward(w[k].1, w[k + 1].1));
        assert(1 * ex == ex && 1 * ey == ey);
        assert(right_angle(w[k - 1], w[k], w[k + 1]));
        assert(i == reached(w, k));
        lemma_bend_joins_its_legs(w[k - 1], w[k], w[k + 1]);
    }
}

/// The end of a line that runs along a row or a column has a head that
/// points the way the line runs.
pub proof fn lemma_head_points_onward(n: int)
    requires
        n > 0,
    ensures
        head_char(n, 0) == '>',
        head_char(-n, 0) == '<',
        head_char(0, n) == 'v',
        head_char(0, -n) == '^',
{
}

/// Whether two boxes lie apart: there is a column or a row between them, or
/// they share neither.
pub open spec fn lie_apart(a: ScreenRect, b: ScreenRect) -> bool {
    ||| a.x + a.width < b.x
    ||| b.x + b.width < a.x
    ||| a.y + a.height < b.y
    ||| b.y + b.height < a.y
    ||| (a.x + a.width <= b.x || b.x + b.width <= a.x) && (a.y + a.height <= b.y || b.y + b.height
        <= a.y)
}

/// A connector whose sides are not given runs between its boxes: none of the
/// cells that it is drawn on lies in one of them.
pub proof fn lemma_connector_runs_between_its_boxes(
    from: ScreenRect,
    to: ScreenRect,
    from_part: Fraction,
    to_part: Fraction,
    at: Landing,
    i: int,
)
    requires
        forall|part: Fraction, span: u16| #[trigger] at(part, span) <= span,
        from.width > 0 && from.height > 0 && to.width > 0 && to.height > 0,
        lie_apart(from, to),
        0 <= i < drawn_path(path(from, to, from_part, to_part, None, at)).len(),
    ensures
        ({
            let g = drawn_path(path(from, to, from_part, to_part, None, at))[i];
            !from.has((g.0, g.1)) && !to.has((g.0, g.1))
        }),
{
    let w = path(from, to, from_part, to_part, None, at);
    let plain = legs(w, w.len() - 1);
    lemma_bends_keep_cells(plain, w, w.len() - 2);
    lemma_path_joins_its_sides(from, to, from_part, to_part, None, at);
    lemma_legs_within(w, w.len() - 1, i);
    if !share_row(from, to) && !share_col(from, to) {
        let (fs, ts) = auto_sides(from, to);
        let e = w[0];
        let n = w[2];
        assert(e == side_cell(from, fs, at(from_part, side_span(from, fs))));
        assert(n == side_cell(to, ts, at(to_part, side_span(to, ts))));
    }
}

/// Whether a cell lies between two points.
spec fn between(g: Glyph, a: Point, b: Point) -> bool {
    &&& min(a.0, b.0) <= g.0 <= max(a.0, b.0)
    &&& min(a.1, b.1) <= g.1 <= max(a.1, b.1)
}

/// Every cell of a path lies between the two points of one of its legs.
proof fn lemma_legs_within(w: Seq<Point>, k: int, i: int)
    requires
        w.len() >= 2,
        orthogonal(w),
        1 <= k < w.len(),
        0 <= i < legs(w, k).len(),
    ensures
        exists|j: int|
            0 <= j < k && between(legs(w, k)[i], #[trigger] w[j], w[j + 1]),
    decreases k,
{
    let before = legs(w, k - 1);
    let (a, b) = (w[k - 1], w[k]);
    if i < before.len() {
        assert(legs(w, k)[i] == before[i]);
        if k > 1 {
            lemma_legs_within(w, k - 1, i);
            let j = choose|j: int| 0 <= j < k - 1 && between(before[i], #[trigger] w[j], w[j + 1]);
            assert(between(legs(w, k)[i], w[j], w[j + 1]));
        } else {
            assert(between(legs(w, k)[i], w[0], w[1]));
        }
    } else {
        let m = i - before.len();
        let cells = leg(a, b);
        assert(legs(w, k)[i] == cells[m]);
        assert(w[k - 1].0 == w[k - 1 + 1].0 || w[k - 1].1 == w[k - 1 + 1].1);
        let h = if a.0 == b.0 {
            heading(a.1, b.1)
        } else {
            heading(a.0, b.0)
        };
        assert(h == 1 ==> (m + 1) * h == m + 1) by (nonlinear_arith);
        assert(h == -1 ==> (m + 1) * h == -(m + 1)) by (nonlinear_arith);
        assert(between(legs(w, k)[i], w[k - 1], w[k - 1 + 1]));
    }
}

} // verus!

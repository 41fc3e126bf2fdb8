//! What holds of every layout: each box gets one place, no two places
//! overlap, and connectors run to the right.

use vstd::prelude::*;

use crate::graph::{
    arcs_of, last_index, lemma_arcs_wf, lemma_last_index, lemma_ranks_follow_arcs, lemma_relaxed,
    topological, Graph,
};
use crate::layout::{
    lemma_column, lemma_stack, movable, not_group, places, plan_of, COMPONENT_GAP, Columns, GAP_X,
    GAP_Y, Plan, Spot,
};
use crate::model::{find_node, lemma_find_node, CanvasView, EdgeView, NodeView};
use crate::step_laws::{distinct_nodes, lemma_filtered_nodes};

verus! {

/// How many of some spots are for a box.
pub open spec fn times(out: Seq<Spot>, i: int) -> nat
    decreases out.len(),
{
    if out.len() == 0 {
        0
    } else {
        times(out.drop_last(), i) + (if out.last().i == i {
            1nat
        } else {
            0
        })
    }
}

proof fn lemma_times_concat(a: Seq<Spot>, b: Seq<Spot>, i: int)
    ensures
        times(a + b, i) == times(a, i) + times(b, i),
    decreases b.len(),
{
    if b.len() == 0 {
        assert(a + b =~= a);
    } else {
        assert((a + b).drop_last() =~= a + b.drop_last());
        lemma_times_concat(a, b.drop_last(), i);
    }
}

proof fn lemma_times_stack(p: Plan, col: Seq<int>, x: int, y: int, i: int)
    ensures
        times(p.stack(col, x, y), i) == col.to_multiset().count(i),
    decreases col.len(),
{
    broadcast use vstd::seq_lib::group_to_multiset_ensures;

    if col.len() > 0 {
        let s = p.stack(col, x, y);
        assert(s.drop_last() =~= p.stack(col.drop_last(), x, y));
        lemma_times_stack(p, col.drop_last(), x, y, i);
        assert(col.drop_last().push(col.last()) =~= col);
    }
}

pub(crate) proof fn lemma_layer_count(p: Plan, s: int, r: int, upto: int, i: int)
    requires
        0 <= upto,
    ensures
        p.layer(s, r, upto).to_multiset().count(i) == if 0 <= i < upto && p.leader(i) == s
            && p.rank(i) == r {
            1nat
        } else {
            0
        },
    decreases upto,
{
    broadcast use vstd::seq_lib::group_to_multiset_ensures;

    if upto > 0 {
        lemma_layer_count(p, s, r, upto - 1, i);
    }
}

proof fn lemma_times_columns(p: Plan, s: int, y: int, r: int, i: int)
    requires
        p.wf(),
        0 <= r,
        0 <= i < p.g.n,
    ensures
        times(p.columns(s, y, r).out, i) == if p.leader(i) == s && 0 <= p.rank(i) < r {
            1nat
        } else {
            0
        },
    decreases r,
{
    if r > 0 {
        lemma_times_columns(p, s, y, r - 1, i);
        let before = p.columns(s, y, r - 1);
        let col = p.column(s, r - 1);
        lemma_column(p, s, r - 1);
        lemma_layer_count(p, s, r - 1, p.g.n, i);
        lemma_times_stack(p, col, before.x, y, i);
        lemma_times_concat(before.out, p.stack(col, before.x, y), i);
    }
}

proof fn lemma_first(g: Graph, i: int, j: int)
    requires
        0 <= j <= i,
    ensures
        j <= g.first_connected(i, j) <= i,
        g.connected(g.first_connected(i, j), i),
        forall|m: int| j <= m < g.first_connected(i, j) ==> !g.connected(m, i),
    decreases i - j,
{
    if j >= i {
        assert(g.is_path(seq![i]));
        assert(seq![i].first() == i && seq![i].last() == i);
    } else if !g.connected(j, i) {
        lemma_first(g, i, j + 1);
    }
}

proof fn lemma_transitive(g: Graph, a: int, b: int, c: int)
    requires
        g.connected(a, b),
        g.connected(b, c),
    ensures
        g.connected(a, c),
{
    let p = choose|p: Seq<int>| #[trigger] g.is_path(p) && p.first() == a && p.last() == b;
    let q = choose|q: Seq<int>| #[trigger] g.is_path(q) && q.first() == b && q.last() == c;
    let r = p + q.skip(1);
    assert forall|k: int| 0 <= k < r.len() - 1 implies #[trigger] g.step(r, k) by {
        if k < p.len() - 1 {
            assert(g.step(p, k));
        } else {
            assert(g.step(q, k - (p.len() - 1)));
        }
    }
    assert(g.is_path(r));
    assert(r.first() == a);
    if q.len() == 1 {
        assert(r =~= p);
    }
    assert(r.last() == c);
}

proof fn lemma_symmetric(g: Graph, a: int, b: int)
    requires
        g.connected(a, b),
    ensures
        g.connected(b, a),
{
    let p = choose|p: Seq<int>| #[trigger] g.is_path(p) && p.first() == a && p.last() == b;
    let r = p.reverse();
    assert forall|k: int| 0 <= k < r.len() - 1 implies #[trigger] g.step(r, k) by {
        let j = p.len() - 2 - k;
        assert(g.step(p, j));
        let (m, n) = (p[j], p[j + 1]);
        let x = choose|x: int|
            0 <= x < g.arcs.len() && (#[trigger] g.arcs[x] == (m, n) || g.arcs[x] == (n, m));
        assert(g.linked(n, m)) by {
            assert(g.arcs[x] == (n, m) || g.arcs[x] == (m, n));
        }
    }
    assert(g.is_path(r));
}

/// Two boxes that are connected have one leader, and it leads itself.
pub proof fn lemma_leaders(g: Graph, a: int, b: int)
    requires
        0 <= a,
        0 <= b,
        g.connected(a, b),
    ensures
        g.leader(a) == g.leader(b),
        0 <= g.leader(a) <= a,
        g.leader(g.leader(a)) == g.leader(a),
{
    lemma_first(g, a, 0);
    lemma_first(g, b, 0);
    lemma_symmetric(g, a, b);
    let (l, m) = (g.leader(a), g.leader(b));
    lemma_transitive(g, l, a, b);
    lemma_transitive(g, m, b, a);
    lemma_first(g, l, 0);
    lemma_transitive(g, g.leader(l), l, a);
}

proof fn lemma_self_connected(g: Graph, a: int)
    ensures
        g.connected(a, a),
{
    assert(g.is_path(seq![a]));
    assert(seq![a].first() == a && seq![a].last() == a);
}

proof fn lemma_times_laid(p: Plan, c: int, i: int)
    requires
        p.wf(),
        0 <= c <= p.g.n,
        0 <= i < p.g.n,
    ensures
        times(p.laid(c).out, i) == if p.leader(i) < c {
            1nat
        } else {
            0
        },
    decreases c,
{
    lemma_self_connected(p.g, i);
    lemma_leaders(p.g, i, i);
    if c > 0 {
        lemma_times_laid(p, c - 1, i);
        let before = p.laid(c - 1);
        lemma_relaxed(p.g, p.g.n);
        assert(0 <= p.g.ranks()[i] <= p.g.n * p.g.n);
        assert(p.limit() >= 0) by (nonlinear_arith)
            requires
                p.limit() == p.g.n * p.g.n + 1,
        ;
        let cols = p.columns(c - 1, before.y, p.limit());
        lemma_times_columns(p, c - 1, before.y, p.limit(), i);
        lemma_times_concat(before.out, cols.out, i);
    }
}

/// Every box of the board gets exactly one place.
pub proof fn lemma_every_box_is_placed_once(p: Plan, i: int)
    requires
        p.wf(),
        0 <= i < p.g.n,
    ensures
        times(p.spots(), i) == 1,
{
    lemma_times_laid(p, p.g.n, i);
    lemma_self_connected(p.g, i);
    lemma_leaders(p.g, i, i);
}

pub(crate) proof fn lemma_run_prefix(p: Plan, col: Seq<int>, j: int, k: int)
    requires
        0 <= j <= k <= col.len(),
    ensures
        p.run(col.take(j)) <= p.run(col.take(k)),
        j < k ==> p.run(col.take(j)) + p.rects[col[j]].height + GAP_Y <= p.run(col.take(k)),
        0 <= p.run(col.take(j)),
        p.run(col.take(col.len() as int)) == p.run(col),
    decreases k,
{
    assert(col.take(col.len() as int) =~= col);
    if j < k {
        lemma_run_prefix(p, col, j, k - 1);
        assert(col.take(k).drop_last() =~= col.take(k - 1));
    } else if k > 0 {
        lemma_run_prefix(p, col, j - 1, k - 1);
        assert(col.take(k).drop_last() =~= col.take(k - 1));
    }
}

proof fn lemma_widest(p: Plan, col: Seq<int>, k: int)
    requires
        0 <= k < col.len(),
    ensures
        p.rects[col[k]].width <= p.widest(col),
        0 <= p.widest(col),
    decreases col.len(),
{
    if k < col.len() - 1 {
        lemma_widest(p, col.drop_last(), k);
    } else if col.len() > 1 {
        lemma_widest(p, col.drop_last(), 0);
    }
}

proof fn lemma_widest_nonneg(p: Plan, col: Seq<int>)
    ensures
        0 <= p.widest(col),
    decreases col.len(),
{
    if col.len() > 0 {
        lemma_widest_nonneg(p, col.drop_last());
    }
}

/// Whether a spot of one part lies in the column of its rank, between the
/// part's first row and its last.
spec fn in_part(p: Plan, s: int, y: int, cols: Columns, e: Spot) -> bool {
    &&& 0 <= e.i < p.g.n
    &&& p.leader(e.i) == s
    &&& 0 <= p.rank(e.i)
    &&& e.x == p.columns(s, y, p.rank(e.i)).x
    &&& e.x + p.rects[e.i].width + GAP_X <= p.columns(s, y, p.rank(e.i) + 1).x
    &&& y <= e.y
    &&& e.y + p.rects[e.i].height <= cols.bottom
}

proof fn lemma_columns_x(p: Plan, s: int, y: int, a: int, b: int)
    requires
        0 <= a <= b,
    ensures
        p.columns(s, y, a).x <= p.columns(s, y, b).x,
        p.columns(s, y, a).bottom <= p.columns(s, y, b).bottom,
        y <= p.columns(s, y, a).bottom,
    decreases b,
{
    if a < b {
        lemma_columns_x(p, s, y, a, b - 1);
        lemma_widest_nonneg(p, p.column(s, b - 1));
    } else if a > 0 {
        lemma_columns_x(p, s, y, a - 1, b - 1);
        lemma_widest_nonneg(p, p.column(s, b - 1));
    }
}

/// Whether two spots of a column, in order, leave the gap between them.
spec fn apart(p: Plan, e: Spot, f: Spot) -> bool {
    p.rank(e.i) == p.rank(f.i) ==> e.y + p.rects[e.i].height + GAP_Y <= f.y
}

proof fn lemma_part(p: Plan, s: int, y: int, r: int)
    requires
        p.wf(),
        0 <= r,
    ensures
        ({
            let cols = p.columns(s, y, r);
            &&& forall|k: int|
                0 <= k < cols.out.len() ==> in_part(p, s, y, cols, #[trigger] cols.out[k])
                    && p.rank(cols.out[k].i) < r
            &&& forall|j: int, k: int|
                0 <= j < k < cols.out.len() ==> apart(
                    p,
                    #[trigger] cols.out[j],
                    #[trigger] cols.out[k],
                )
        }),
    decreases r,
{
    if r > 0 {
        lemma_part(p, s, y, r - 1);
        let before = p.columns(s, y, r - 1);
        let cols = p.columns(s, y, r);
        let col = p.column(s, r - 1);
        lemma_column(p, s, r - 1);
        lemma_stack(p, col, before.x, y);
        lemma_columns_x(p, s, y, r - 1, r);
        let stacked = p.stack(col, before.x, y);
        let n = before.out.len();
        assert forall|k: int| 0 <= k < cols.out.len() implies in_part(
            p,
            s,
            y,
            cols,
            #[trigger] cols.out[k],
        ) && p.rank(cols.out[k].i) < r by {
            if k < n {
                assert(cols.out[k] == before.out[k]);
            } else {
                let m = k - n;
                assert(cols.out[k] == stacked[m]);
                assert(0 <= col[m] < p.g.n && p.leader(col[m]) == s && p.rank(col[m]) == r - 1);
                lemma_widest(p, col, m);
                lemma_run_prefix(p, col, m, col.len() as int);
            }
        }
        assert forall|j: int, k: int| 0 <= j < k < cols.out.len() implies apart(
            p,
            #[trigger] cols.out[j],
            #[trigger] cols.out[k],
        ) by {
            if k < n {
                assert(cols.out[k] == before.out[k]);
                assert(cols.out[j] == before.out[j]);
            } else if j >= n {
                assert(cols.out[k] == stacked[k - n]);
                assert(cols.out[j] == stacked[j - n]);
                lemma_run_prefix(p, col, j - n, k - n);
            } else {
                assert(cols.out[j] == before.out[j]);
                assert(cols.out[k] == stacked[k - n]);
                assert(p.rank(before.out[j].i) < r - 1);
                assert(p.rank(col[k - n]) == r - 1);
            }
        }
    }
}

/// Whether two spots leave room between their boxes: beside each other or
/// one above the other.
pub open spec fn disjoint(p: Plan, e: Spot, f: Spot) -> bool {
    ||| e.x + p.rects[e.i].width + GAP_X <= f.x
    ||| f.x + p.rects[f.i].width + GAP_X <= e.x
    ||| e.y + p.rects[e.i].height + GAP_Y <= f.y
    ||| f.y + p.rects[f.i].height + GAP_Y <= e.y
}

proof fn lemma_same_part(p: Plan, s: int, y: int, r: int, j: int, k: int)
    requires
        p.wf(),
        0 <= r,
        0 <= j < k < p.columns(s, y, r).out.len(),
    ensures
        disjoint(p, p.columns(s, y, r).out[j], p.columns(s, y, r).out[k]),
{
    let cols = p.columns(s, y, r);
    lemma_part(p, s, y, r);
    let (e, f) = (cols.out[j], cols.out[k]);
    assert(in_part(p, s, y, cols, e) && in_part(p, s, y, cols, f));
    if p.rank(e.i) < p.rank(f.i) {
        lemma_columns_x(p, s, y, p.rank(e.i) + 1, p.rank(f.i));
    } else if p.rank(f.i) < p.rank(e.i) {
        lemma_columns_x(p, s, y, p.rank(f.i) + 1, p.rank(e.i));
    } else {
        assert(apart(p, e, f));
    }
}

/// What holds of the parts laid out so far: every spot stays above the row
/// for the next, and no two overlap.
spec fn laid_well(p: Plan, c: int) -> bool {
    let laid = p.laid(c);
    &&& p.y <= laid.y
    &&& forall|k: int|
        0 <= k < laid.out.len() ==> {
            let e = #[trigger] laid.out[k];
            &&& 0 <= e.i < p.g.n
            &&& p.leader(e.i) < c
            &&& p.x <= e.x
            &&& p.y <= e.y
            &&& e.y + p.rects[e.i].height + COMPONENT_GAP <= laid.y
        }
    &&& forall|j: int, k: int|
        0 <= j < k < laid.out.len() ==> disjoint(p, #[trigger] laid.out[j], #[trigger] laid.out[k])
    &&& forall|j: int, k: int|
        0 <= j < k < laid.out.len() && p.leader((#[trigger] laid.out[j]).i) != p.leader(
            (#[trigger] laid.out[k]).i,
        ) ==> laid.out[j].y + p.rects[laid.out[j].i].height + COMPONENT_GAP <= laid.out[k].y
}

proof fn lemma_laid_well(p: Plan, c: int)
    requires
        p.wf(),
        0 <= c <= p.g.n,
    ensures
        laid_well(p, c),
    decreases c,
{
    if c > 0 {
        lemma_laid_well(p, c - 1);
        let before = p.laid(c - 1);
        let laid = p.laid(c);
        let s = c - 1;
        let n = before.out.len();
        let r = p.limit();
        assert(r >= 0) by (nonlinear_arith)
            requires
                r == p.g.n * p.g.n + 1,
        ;
        if p.leader(s) == s {
            let cols = p.columns(s, before.y, r);
            lemma_part(p, s, before.y, r);
            lemma_columns_x(p, s, before.y, 0, r);
            assert forall|k: int| 0 <= k < laid.out.len() implies ({
                let e = #[trigger] laid.out[k];
                &&& 0 <= e.i < p.g.n
                &&& p.leader(e.i) < c
                &&& p.x <= e.x
                &&& p.y <= e.y
                &&& e.y + p.rects[e.i].height + COMPONENT_GAP <= laid.y
            }) by {
                if k < n {
                    assert(laid.out[k] == before.out[k]);
                } else {
                    assert(laid.out[k] == cols.out[k - n]);
                    let e = cols.out[k - n];
                    assert(in_part(p, s, before.y, cols, e));
                    lemma_columns_x(p, s, before.y, 0, p.rank(e.i));
                }
            }
            assert forall|j: int, k: int| 0 <= j < k < laid.out.len() implies disjoint(
                p,
                #[trigger] laid.out[j],
                #[trigger] laid.out[k],
            ) by {
                if k < n {
                    assert(laid.out[k] == before.out[k] && laid.out[j] == before.out[j]);
                } else if j >= n {
                    assert(laid.out[k] == cols.out[k - n] && laid.out[j] == cols.out[j - n]);
                    lemma_same_part(p, s, before.y, r, j - n, k - n);
                } else {
                    assert(laid.out[j] == before.out[j] && laid.out[k] == cols.out[k - n]);
                    assert(in_part(p, s, before.y, cols, cols.out[k - n]));
                }
            }
            assert forall|j: int, k: int|
                0 <= j < k < laid.out.len() && p.leader((#[trigger] laid.out[j]).i) != p.leader(
                    (#[trigger] laid.out[k]).i,
                ) implies laid.out[j].y + p.rects[laid.out[j].i].height + COMPONENT_GAP
                <= laid.out[k].y by {
                if k < n {
                    assert(laid.out[k] == before.out[k] && laid.out[j] == before.out[j]);
                } else if j >= n {
                    assert(laid.out[k] == cols.out[k - n] && laid.out[j] == cols.out[j - n]);
                    assert(in_part(p, s, before.y, cols, cols.out[k - n]));
                    assert(in_part(p, s, before.y, cols, cols.out[j - n]));
                } else {
                    assert(laid.out[j] == before.out[j] && laid.out[k] == cols.out[k - n]);
                    assert(in_part(p, s, before.y, cols, cols.out[k - n]));
                }
            }
        }
    }
}

/// No two boxes of a layout overlap, and parts of the board that no
/// connector joins lie one below the other.
pub proof fn lemma_boxes_do_not_overlap(p: Plan, j: int, k: int)
    requires
        p.wf(),
        0 <= j < k < p.spots().len(),
    ensures
        disjoint(p, p.spots()[j], p.spots()[k]),
        p.leader(p.spots()[j].i) != p.leader(p.spots()[k].i) ==> p.spots()[j].y
            + p.rects[p.spots()[j].i].height + COMPONENT_GAP <= p.spots()[k].y,
{
    lemma_laid_well(p, p.g.n);
}

/// The arrangement starts at the corner where the content already is:
/// nothing lies left of it or above it, and the first box lies on it.
pub proof fn lemma_layout_stays_in_place(p: Plan)
    requires
        p.wf(),
        p.g.n > 0,
    ensures
        forall|k: int|
            0 <= k < p.spots().len() ==> p.x <= (#[trigger] p.spots()[k]).x && p.y
                <= p.spots()[k].y,
        exists|k: int| 0 <= k < p.spots().len() && (#[trigger] p.spots()[k]).x == p.x
            && p.spots()[k].y == p.y,
{
    lemma_laid_well(p, p.g.n);
    lemma_starts(p, p.g.n);
    assert(p.spots()[0].x == p.x);
}

/// The first box of the first part takes the corner.
proof fn lemma_starts(p: Plan, c: int)
    requires
        p.wf(),
        0 < c <= p.g.n,
    ensures
        p.laid(c).out.len() > 0,
        p.laid(c).out[0].x == p.x,
        p.laid(c).out[0].y == p.y,
    decreases c,
{
    lemma_self_connected(p.g, 0);
    lemma_leaders(p.g, 0, 0);
    if c == 1 {
        lemma_relaxed(p.g, p.g.n);
        let r = p.limit();
        assert(r >= 0) by (nonlinear_arith)
            requires
                r == p.g.n * p.g.n + 1,
        ;
        lemma_times_columns(p, 0, p.y, r, 0);
        let cols = p.columns(0, p.y, r);
        lemma_first_column(p, 0, p.y, r);
        assert(p.laid(0).out + cols.out =~= cols.out);
        assert(0 <= p.g.ranks()[0] <= p.g.n * p.g.n);
        assert(times(cols.out, 0) == 1);
        assert(cols.out.len() > 0);
    } else {
        lemma_starts(p, c - 1);
    }
}

/// The first spot of a part takes its corner.
proof fn lemma_first_column(p: Plan, s: int, y: int, r: int)
    ensures
        p.columns(s, y, r).out.len() > 0 ==> p.columns(s, y, r).out[0].x == p.x
            && p.columns(s, y, r).out[0].y == y,
        p.columns(s, y, r).out.len() == 0 ==> p.columns(s, y, r).x == p.x,
    decreases r,
{
    if r > 0 {
        lemma_first_column(p, s, y, r - 1);
        let before = p.columns(s, y, r - 1);
        let col = p.column(s, r - 1);
        lemma_stack(p, col, before.x, y);
        if col.len() > 0 {
            let stacked = p.stack(col, before.x, y);
            assert(stacked[0] == (Spot { i: col[0], x: before.x, y: y + p.run(col.take(0)) }));
            assert(col.take(0) =~= Seq::empty());
            if before.out.len() == 0 {
                assert(p.columns(s, y, r).out =~= stacked);
            }
        }
    }
}

/// On a board without cycles every connector runs to the right: the box it
/// leads to lies right of the box it leaves, with the gap between them.
pub proof fn lemma_connectors_run_right(p: Plan, t: Seq<int>, j: int, k: int)
    requires
        p.wf(),
        topological(p.g, t),
        0 <= j < p.spots().len(),
        0 <= k < p.spots().len(),
        p.g.arcs.contains((p.spots()[j].i, p.spots()[k].i)),
    ensures
        p.spots()[j].x + p.rects[p.spots()[j].i].width + GAP_X <= p.spots()[k].x,
{
    let (e, f) = (p.spots()[j], p.spots()[k]);
    let (a, b) = (e.i, f.i);
    lemma_ranks_follow_arcs(p.g, t, a, b);
    let m = choose|m: int| 0 <= m < p.g.arcs.len() && p.g.arcs[m] == (a, b);
    assert(0 <= p.g.arcs[m].0 < p.g.n && 0 <= p.g.arcs[m].1 < p.g.n);
    assert(p.g.linked(a, b)) by {
        assert(p.g.arcs[m] == (a, b));
    }
    let path = seq![a, b];
    assert(p.g.step(path, 0));
    assert(p.g.is_path(path));
    assert(path.first() == a && path.last() == b);
    lemma_leaders(p.g, a, b);
    lemma_where(p, p.g.n, j);
    lemma_where(p, p.g.n, k);
    let s = p.leader(a);
    lemma_columns_free(p, s, 0, p.laid(s).y, p.rank(a) + 1);
    lemma_columns_free(p, s, 0, p.laid(s).y, p.rank(b));
    lemma_columns_x(p, s, 0, p.rank(a) + 1, p.rank(b));
}

/// The columns of a part do not depend on the row it starts at.
proof fn lemma_columns_free(p: Plan, s: int, y: int, z: int, r: int)
    ensures
        p.columns(s, y, r).x == p.columns(s, z, r).x,
    decreases r,
{
    if r > 0 {
        lemma_columns_free(p, s, y, z, r - 1);
    }
}

/// Every spot lies in the column of its rank in the part of its leader.
pub(crate) proof fn lemma_where(p: Plan, c: int, k: int)
    requires
        p.wf(),
        0 <= c <= p.g.n,
        0 <= k < p.laid(c).out.len(),
    ensures
        ({
            let e = p.laid(c).out[k];
            let s = p.leader(e.i);
            &&& 0 <= e.i < p.g.n
            &&& 0 <= p.rank(e.i)
            &&& e.x == p.columns(s, p.laid(s).y, p.rank(e.i)).x
            &&& e.x + p.rects[e.i].width + GAP_X <= p.columns(s, p.laid(s).y, p.rank(e.i) + 1).x
        }),
    decreases c,
{
    if c > 0 {
        let before = p.laid(c - 1);
        let n = before.out.len();
        if k < n {
            assert(p.laid(c).out[k] == before.out[k]);
            lemma_where(p, c - 1, k);
        } else {
            let s = c - 1;
            let r = p.limit();
            assert(r >= 0) by (nonlinear_arith)
                requires
                    r == p.g.n * p.g.n + 1,
            ;
            let cols = p.columns(s, before.y, r);
            lemma_part(p, s, before.y, r);
            assert(p.laid(c).out[k] == cols.out[k - n]);
            assert(in_part(p, s, before.y, cols, cols.out[k - n]));
        }
    }
}

/// What there is to lay out on a board is well formed, whatever the board:
/// so every law of layouts holds of it.
pub proof fn lemma_board_has_a_layout(c: CanvasView)
    ensures
        plan_of(c).wf(),
{
    lemma_arcs_wf(movable(c), c.edges);
}

/// Whether a spot has 32-bit coordinates.
pub open spec fn spot_fits(s: Spot) -> bool {
    i32::MIN <= s.x <= i32::MAX && i32::MIN <= s.y <= i32::MAX
}

/// The places that a board's boxes get do not overlap: between any two of
/// them there is a gap, beside or below. Places past the last coordinate
/// are cut there.
pub proof fn lemma_places_are_apart(c: CanvasView, j: int, k: int)
    requires
        0 <= j < k < places(c).len(),
        spot_fits(plan_of(c).spots()[j]),
        spot_fits(plan_of(c).spots()[k]),
    ensures
        ({
            let spots = plan_of(c).spots();
            let (a, b) = (movable(c)[spots[j].i], movable(c)[spots[k].i]);
            let (p, q) = (places(c)[j], places(c)[k]);
            &&& p.0 == a.id && q.0 == b.id
            &&& {
                ||| p.1 + a.rect.width + GAP_X <= q.1
                ||| q.1 + b.rect.width + GAP_X <= p.1
                ||| p.2 + a.rect.height + GAP_Y <= q.2
                ||| q.2 + b.rect.height + GAP_Y <= p.2
            }
        }),
{
    let plan = plan_of(c);
    lemma_board_has_a_layout(c);
    lemma_boxes_do_not_overlap(plan, j, k);
    lemma_where(plan, plan.g.n, j);
    lemma_where(plan, plan.g.n, k);
}

/// Whether a ranking of boxes by id follows every connector between two of
/// those that a layout moves.
pub open spec fn follows_connectors(c: CanvasView, rank: spec_fn(Seq<char>) -> int) -> bool {
    let nodes = movable(c);
    &&& forall|i: int|
        0 <= i < nodes.len() ==> 0 <= #[trigger] rank(nodes[i].id) < nodes.len()
    &&& forall|e: int|
        0 <= e < c.edges.len() && last_index(nodes, (#[trigger] c.edges[e]).from) is Some
            && last_index(nodes, c.edges[e].to) is Some && c.edges[e].from != c.edges[e].to
            ==> rank(c.edges[e].from) < rank(c.edges[e].to)
}

/// Whether no connectors of a board form a cycle.
pub open spec fn acyclic(c: CanvasView) -> bool {
    exists|rank: spec_fn(Seq<char>) -> int| #[trigger] follows_connectors(c, rank)
}

proof fn lemma_unique_index(nodes: Seq<NodeView>, i: int)
    requires
        distinct_nodes(nodes),
        0 <= i < nodes.len(),
    ensures
        last_index(nodes, nodes[i].id) == Some(i),
{
    lemma_last_index(nodes, nodes[i].id);
    lemma_has_index(nodes, i);
    let j = last_index(nodes, nodes[i].id)->0;
    if j < i {
        assert(nodes[j].id != nodes[i].id);
    } else if i < j {
        assert(nodes[i].id != nodes[j].id);
    }
}

proof fn lemma_has_index(nodes: Seq<NodeView>, i: int)
    requires
        0 <= i < nodes.len(),
    ensures
        last_index(nodes, nodes[i].id) is Some,
    decreases nodes.len(),
{
    if i < nodes.len() - 1 && nodes.last().id != nodes[i].id {
        assert(nodes.drop_last()[i] == nodes[i]);
        lemma_has_index(nodes.drop_last(), i);
    }
}

proof fn lemma_arcs_are_connectors(
    nodes: Seq<NodeView>,
    edges: Seq<EdgeView>,
    rank: spec_fn(Seq<char>) -> int,
)
    requires
        forall|e: int|
            0 <= e < edges.len() && last_index(nodes, (#[trigger] edges[e]).from) is Some
                && last_index(nodes, edges[e].to) is Some && edges[e].from != edges[e].to ==> rank(
                edges[e].from,
            ) < rank(edges[e].to),
    ensures
        forall|k: int|
            0 <= k < arcs_of(nodes, edges).len() ==> rank(
                nodes[(#[trigger] arcs_of(nodes, edges)[k]).0].id,
            ) < rank(nodes[arcs_of(nodes, edges)[k].1].id),
        forall|e: int|
            0 <= e < edges.len() && last_index(nodes, (#[trigger] edges[e]).from) is Some
                && last_index(nodes, edges[e].to) is Some && edges[e].from != edges[e].to
                ==> arcs_of(nodes, edges).contains(
                (
                    last_index(nodes, edges[e].from)->0,
                    last_index(nodes, edges[e].to)->0,
                ),
            ),
    decreases edges.len(),
{
    if edges.len() > 0 {
        let rest = edges.drop_last();
        let last = edges[edges.len() - 1];
        assert forall|e: int|
            0 <= e < rest.len() && last_index(nodes, (#[trigger] rest[e]).from) is Some
                && last_index(nodes, rest[e].to) is Some && rest[e].from
                != rest[e].to implies rank(rest[e].from) < rank(rest[e].to) by {
            assert(rest[e] == edges[e]);
        }
        lemma_arcs_are_connectors(nodes, rest, rank);
        lemma_last_index(nodes, last.from);
        lemma_last_index(nodes, last.to);
        let before = arcs_of(nodes, rest);
        let arcs = arcs_of(nodes, edges);
        assert forall|k: int| 0 <= k < arcs.len() implies rank(nodes[(#[trigger] arcs[k]).0].id)
            < rank(nodes[arcs[k].1].id) by {
            if k < before.len() {
                assert(arcs[k] == before[k]);
            }
        }
        assert forall|e: int|
            0 <= e < edges.len() && last_index(nodes, (#[trigger] edges[e]).from) is Some
                && last_index(nodes, edges[e].to) is Some && edges[e].from
                != edges[e].to implies arcs.contains(
            (last_index(nodes, edges[e].from)->0, last_index(nodes, edges[e].to)->0),
        ) by {
            let arc = (last_index(nodes, edges[e].from)->0, last_index(nodes, edges[e].to)->0);
            if e < rest.len() {
                assert(rest[e] == edges[e]);
                assert(before.contains(arc));
                let k = choose|k: int| 0 <= k < before.len() && before[k] == arc;
                assert(arcs[k] == arc);
            } else {
                assert(arcs[arcs.len() - 1] == arc);
            }
        }
    }
}

/// On a board without cycles, on which every box has an id of its own, each
/// connector between two placed boxes runs to the right: the place of the
/// box that it leads to lies right of the box that it leaves, with the gap
/// between them. Places past the last coordinate are cut there.
pub proof fn lemma_placed_connectors_run_right(c: CanvasView, e: int, j: int, k: int)
    requires
        distinct_nodes(c.nodes),
        acyclic(c),
        0 <= e < c.edges.len(),
        c.edges[e].from != c.edges[e].to,
        0 <= j < places(c).len(),
        0 <= k < places(c).len(),
        places(c)[j].0 == c.edges[e].from,
        places(c)[k].0 == c.edges[e].to,
        spot_fits(plan_of(c).spots()[j]),
        spot_fits(plan_of(c).spots()[k]),
    ensures
        c.node(c.edges[e].from) is Some,
        places(c)[j].1 + c.node(c.edges[e].from)->0.rect.width + GAP_X <= places(c)[k].1,
{
    let plan = plan_of(c);
    let nodes = movable(c);
    let edge = c.edges[e];
    lemma_board_has_a_layout(c);
    lemma_where(plan, plan.g.n, j);
    lemma_where(plan, plan.g.n, k);
    let (a, b) = (plan.spots()[j].i, plan.spots()[k].i);
    assert(nodes[a].id == edge.from && nodes[b].id == edge.to);
    lemma_filtered_nodes(c.nodes, not_group(), edge.from);
    lemma_unique_index(nodes, a);
    lemma_unique_index(nodes, b);
    let rank = choose|rank: spec_fn(Seq<char>) -> int| #[trigger] follows_connectors(c, rank);
    lemma_arcs_are_connectors(nodes, c.edges, rank);
    let t = Seq::new(nodes.len(), |i: int| rank(nodes[i].id));
    assert(topological(plan.g, t)) by {
        assert forall|i: int| 0 <= i < plan.g.arcs.len() implies t[(#[trigger] plan.g.arcs[i]).0]
            < t[plan.g.arcs[i].1] by {
            assert(plan.g.arcs[i] == arcs_of(nodes, c.edges)[i]);
        }
    }
    assert(plan.g.arcs.contains((a, b)));
    lemma_connectors_run_right(plan, t, j, k);
    lemma_find_node(nodes, edge.from);
    let at = find_node(nodes, edge.from)->0;
    if at < a {
        assert(nodes[at].id != nodes[a].id);
    } else if a < at {
        assert(nodes[a].id != nodes[at].id);
    }
}

} // verus!

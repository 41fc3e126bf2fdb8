//! How the boxes of one column of a layout stand: in the order that keeps
//! connectors from crossing.

use vstd::prelude::*;

use crate::graph::{
    lemma_ranks_follow_arcs, lemma_relaxed, lemma_succs, preds, relax_list, succs, topological,
    Graph,
};
use crate::layout::{
    lemma_column, lemma_layer, lemma_stack, placed_order, sum_orders, Plan, Spot, COMPONENT_GAP,
    GAP_X, GAP_Y,
};
use crate::layout_laws::{
    lemma_every_box_is_placed_once, lemma_layer_count, lemma_leaders, lemma_run_prefix,
    lemma_where, times,
};

verus! {

/// How many connectors lead to a box, among the first `k`.
pub open spec fn incoming(arcs: Seq<(int, int)>, b: int, k: int) -> int
    decreases k,
{
    if k <= 0 {
        0
    } else {
        incoming(arcs, b, k - 1) + (if arcs[k - 1].1 == b {
            1int
        } else {
            0
        })
    }
}

/// The positions, added up, of the boxes from which the first `k` connectors
/// lead to a box.
pub open spec fn pull(arcs: Seq<(int, int)>, pos: Seq<int>, b: int, k: int) -> int
    decreases k,
{
    if k <= 0 {
        0
    } else {
        pull(arcs, pos, b, k - 1) + (if arcs[k - 1].1 == b {
            pos[arcs[k - 1].0]
        } else {
            0
        })
    }
}

proof fn lemma_preds_are_incoming(arcs: Seq<(int, int)>, pos: Seq<int>, b: int, k: int)
    requires
        0 <= k <= arcs.len(),
    ensures
        preds(arcs.take(k), b).len() == incoming(arcs, b, k),
        sum_orders(pos, preds(arcs.take(k), b)) == pull(arcs, pos, b, k),
    decreases k,
{
    if k > 0 {
        lemma_preds_are_incoming(arcs, pos, b, k - 1);
        assert(arcs.take(k).drop_last() =~= arcs.take(k - 1));
        let before = preds(arcs.take(k - 1), b);
        if arcs[k - 1].1 == b {
            assert(before.push(arcs[k - 1].0).drop_last() =~= before);
        }
    }
}

/// What a box sorts by is the mean position of the boxes that connectors lead
/// to it from, in hundredths and rounded down; without such a box, its own
/// position.
pub proof fn lemma_key_is_the_mean_position(p: Plan, order: Seq<int>, i: int)
    ensures
        ({
            let n = p.g.arcs.len() as int;
            let count = incoming(p.g.arcs, i, n);
            let key = p.key(order, i);
            &&& count >= 0
            &&& count == 0 ==> key == 100 * order[i]
            &&& count > 0 ==> key * count <= 100 * pull(p.g.arcs, order, i, n) < (key + 1) * count
        }),
{
    let n = p.g.arcs.len() as int;
    lemma_preds_are_incoming(p.g.arcs, order, i, n);
    assert(p.g.arcs.take(n) =~= p.g.arcs);
    let count = incoming(p.g.arcs, i, n);
    let sum = pull(p.g.arcs, order, i, n);
    if count > 0 {
        let key = (sum * 100) / count;
        vstd::arithmetic::div_mod::lemma_fundamental_div_mod(sum * 100, count);
        vstd::arithmetic::div_mod::lemma_mod_bound(sum * 100, count);
        assert(key * count <= 100 * sum < (key + 1) * count) by (nonlinear_arith)
            requires
                sum * 100 == count * key + (sum * 100) % count,
                0 <= (sum * 100) % count < count,
        ;
    }
}

/// Whether one box may stand above another: it sorts earlier, or the same and
/// comes first on the board.
spec fn may_precede(p: Plan, order: Seq<int>, a: int, b: int) -> bool {
    p.key(order, a) < p.key(order, b) || (p.key(order, a) == p.key(order, b) && a < b)
}

spec fn in_order(p: Plan, order: Seq<int>, s: Seq<int>) -> bool {
    forall|j: int, k: int|
        0 <= j < k < s.len() ==> may_precede(p, order, #[trigger] s[j], #[trigger] s[k])
}

proof fn lemma_inserted_in_order(p: Plan, order: Seq<int>, sorted: Seq<int>, i: int)
    requires
        in_order(p, order, sorted),
        forall|k: int| 0 <= k < sorted.len() ==> #[trigger] sorted[k] < i,
    ensures
        in_order(p, order, p.inserted(order, sorted, i)),
        forall|k: int|
            0 <= k < p.inserted(order, sorted, i).len() ==> #[trigger] p.inserted(
                order,
                sorted,
                i,
            )[k] <= i && (p.inserted(order, sorted, i)[k] == i || sorted.contains(
                p.inserted(order, sorted, i)[k],
            )),
    decreases sorted.len(),
{
    let out = p.inserted(order, sorted, i);
    if sorted.len() == 0 || p.key(order, sorted.last()) <= p.key(order, i) {
        assert forall|j: int, k: int| 0 <= j < k < out.len() implies may_precede(
            p,
            order,
            #[trigger] out[j],
            #[trigger] out[k],
        ) by {
            if k == sorted.len() {
                let last = sorted.len() - 1;
                assert(sorted[j] < i);
                if j < last {
                    assert(may_precede(p, order, sorted[j], sorted[last]));
                }
            } else {
                assert(may_precede(p, order, sorted[j], sorted[k]));
            }
        }
        assert forall|k: int| 0 <= k < out.len() implies #[trigger] out[k] <= i && (out[k] == i
            || sorted.contains(out[k])) by {
            if k < sorted.len() {
                assert(sorted[k] == out[k]);
            }
        }
    } else {
        let rest = sorted.drop_last();
        let last = sorted.last();
        assert forall|j: int, k: int| 0 <= j < k < rest.len() implies may_precede(
            p,
            order,
            #[trigger] rest[j],
            #[trigger] rest[k],
        ) by {
            assert(may_precede(p, order, sorted[j], sorted[k]));
        }
        assert forall|k: int| 0 <= k < rest.len() implies #[trigger] rest[k] < i by {
            assert(rest[k] == sorted[k]);
        }
        lemma_inserted_in_order(p, order, rest, i);
        let head = p.inserted(order, rest, i);
        assert forall|j: int, k: int| 0 <= j < k < out.len() implies may_precede(
            p,
            order,
            #[trigger] out[j],
            #[trigger] out[k],
        ) by {
            if k < head.len() {
                assert(may_precede(p, order, head[j], head[k]));
            } else {
                assert(out[j] == head[j]);
                if head[j] != i {
                    assert(rest.contains(head[j]));
                    let m = choose|m: int| 0 <= m < rest.len() && rest[m] == head[j];
                    assert(may_precede(p, order, sorted[m], sorted[sorted.len() - 1]));
                }
            }
        }
        assert forall|k: int| 0 <= k < out.len() implies #[trigger] out[k] <= i && (out[k] == i
            || sorted.contains(out[k])) by {
            if k < head.len() {
                assert(head[k] == out[k]);
                if head[k] != i {
                    let m = choose|m: int| 0 <= m < rest.len() && rest[m] == head[k];
                    assert(sorted[m] == head[k]);
                }
            } else {
                assert(sorted[sorted.len() - 1] == out[k]);
            }
        }
    }
}

proof fn lemma_sorted_in_order(p: Plan, order: Seq<int>, layer: Seq<int>)
    requires
        forall|j: int, k: int|
            0 <= j < k < layer.len() ==> #[trigger] layer[j] < #[trigger] layer[k],
    ensures
        in_order(p, order, p.sorted(order, layer)),
        forall|k: int|
            0 <= k < p.sorted(order, layer).len() ==> layer.contains(
                #[trigger] p.sorted(order, layer)[k],
            ),
    decreases layer.len(),
{
    if layer.len() > 0 {
        let rest = layer.drop_last();
        let i = layer.last();
        assert forall|j: int, k: int| 0 <= j < k < rest.len() implies #[trigger] rest[j]
            < #[trigger] rest[k] by {
            assert(layer[j] < layer[k]);
        }
        lemma_sorted_in_order(p, order, rest);
        let before = p.sorted(order, rest);
        assert forall|k: int| 0 <= k < before.len() implies #[trigger] before[k] < i by {
            let m = choose|m: int| 0 <= m < rest.len() && rest[m] == before[k];
            assert(layer[m] < layer[layer.len() - 1]);
        }
        lemma_inserted_in_order(p, order, before, i);
        let out = p.sorted(order, layer);
        assert forall|k: int| 0 <= k < out.len() implies layer.contains(#[trigger] out[k]) by {
            if out[k] == i {
                assert(layer[layer.len() - 1] == i);
            } else {
                assert(before.contains(out[k]));
                let m = choose|m: int| 0 <= m < before.len() && before[m] == out[k];
                assert(rest.contains(before[m]));
                let l = choose|l: int| 0 <= l < rest.len() && rest[l] == before[m];
                assert(layer[l] == out[k]);
            }
        }
    }
}

proof fn lemma_layer_rises(p: Plan, s: int, r: int, upto: int)
    requires
        0 <= upto,
    ensures
        forall|j: int, k: int|
            0 <= j < k < p.layer(s, r, upto).len() ==> #[trigger] p.layer(s, r, upto)[j]
                < #[trigger] p.layer(s, r, upto)[k],
    decreases upto,
{
    if upto > 0 {
        lemma_layer_rises(p, s, r, upto - 1);
        lemma_layer(p, s, r, upto - 1);
    }
}

/// Every column is sorted: of two boxes of it, the upper one sorts no later
/// than the lower one, and where they sort the same it comes first on the
/// board.
pub proof fn lemma_column_is_sorted(p: Plan, s: int, r: int, j: int, k: int)
    requires
        0 <= p.g.n,
        0 <= j < k < p.column(s, r).len(),
    ensures
        ({
            let order = p.order_upto(s, r);
            let (a, b) = (p.column(s, r)[j], p.column(s, r)[k]);
            &&& p.key(order, a) <= p.key(order, b)
            &&& p.key(order, a) == p.key(order, b) ==> a < b
        }),
{
    lemma_layer_rises(p, s, r, p.g.n);
    lemma_sorted_in_order(p, p.order_upto(s, r), p.layer(s, r, p.g.n));
    let col = p.column(s, r);
    assert(may_precede(p, p.order_upto(s, r), col[j], col[k]));
}

proof fn lemma_column_distinct(p: Plan, s: int, r: int)
    requires
        0 <= p.g.n,
    ensures
        p.column(s, r).no_duplicates(),
{
    broadcast use vstd::seq_lib::group_to_multiset_ensures;

    let col = p.column(s, r);
    lemma_column(p, s, r);
    assert forall|x: int| col.to_multiset().contains(x) implies col.to_multiset().count(x) == 1 by {
        lemma_layer_count(p, s, r, p.g.n, x);
    }
    col.lemma_multiset_has_no_duplicates_conv();
}

proof fn lemma_placed(order: Seq<int>, layer: Seq<int>, i: int)
    requires
        layer.no_duplicates(),
        forall|k: int| 0 <= k < layer.len() ==> 0 <= #[trigger] layer[k] < order.len(),
        0 <= i < order.len(),
    ensures
        placed_order(order, layer).len() == order.len(),
        forall|k: int| 0 <= k < layer.len() && #[trigger] layer[k] == i ==> placed_order(
            order,
            layer,
        )[i] == k,
        !layer.contains(i) ==> placed_order(order, layer)[i] == order[i],
    decreases layer.len(),
{
    if layer.len() > 0 {
        let rest = layer.drop_last();
        assert(rest.no_duplicates());
        assert forall|k: int| 0 <= k < rest.len() implies 0 <= #[trigger] rest[k] < order.len() by {
            assert(rest[k] == layer[k]);
        }
        lemma_placed(order, rest, i);
        assert(layer.last() == layer[layer.len() - 1]);
        assert forall|k: int| 0 <= k < layer.len() && #[trigger] layer[k] == i implies placed_order(
            order,
            layer,
        )[i] == k by {
            if k < rest.len() {
                assert(rest[k] == i);
            }
        }
        if !layer.contains(i) {
            assert(layer[layer.len() - 1] != i);
            if rest.contains(i) {
                let m = choose|m: int| 0 <= m < rest.len() && rest[m] == i;
                assert(layer[m] == i);
            }
        }
    }
}

/// Whether the numbers say where every box stands in its own column.
pub open spec fn stands_at(p: Plan, pos: Seq<int>) -> bool {
    &&& pos.len() == p.g.n
    &&& forall|i: int|
        0 <= i < p.g.n ==> {
            let col = p.column(p.leader(i), p.rank(i));
            0 <= #[trigger] pos[i] < col.len() && col[pos[i]] == i
        }
}

/// Once a box's column is settled, its position is its index in the column.
proof fn lemma_settled(p: Plan, pos: Seq<int>, r: int, i: int)
    requires
        p.wf(),
        stands_at(p, pos),
        0 <= i < p.g.n,
        0 <= r,
    ensures
        p.order_upto(p.leader(i), r).len() == p.g.n,
        0 <= p.rank(i) < r ==> p.order_upto(p.leader(i), r)[i] == pos[i],
        r <= p.rank(i) ==> p.order_upto(p.leader(i), r)[i] == p.first_order()[i],
    decreases r,
{
    let s = p.leader(i);
    if r > 0 {
        lemma_settled(p, pos, r - 1, i);
        let col = p.column(s, r - 1);
        lemma_column(p, s, r - 1);
        lemma_column_distinct(p, s, r - 1);
        lemma_placed(p.order_upto(s, r - 1), col, i);
        assert(0 <= pos[i]);
        if p.rank(i) != r - 1 && col.contains(i) {
            let m = choose|m: int| 0 <= m < col.len() && col[m] == i;
            assert(p.rank(col[m]) == r - 1);
        }
    }
}

proof fn lemma_pull_settled(p: Plan, t: Seq<int>, pos: Seq<int>, i: int, k: int)
    requires
        p.wf(),
        topological(p.g, t),
        stands_at(p, pos),
        0 <= i < p.g.n,
        0 <= k <= p.g.arcs.len(),
    ensures
        pull(p.g.arcs, p.order_upto(p.leader(i), p.rank(i)), i, k) == pull(p.g.arcs, pos, i, k),
    decreases k,
{
    if k > 0 {
        lemma_pull_settled(p, t, pos, i, k - 1);
        if p.g.arcs[k - 1].1 == i {
            let a = p.g.arcs[k - 1].0;
            assert(p.g.arcs.contains((a, i))) by {
                assert(p.g.arcs[k - 1] == (a, i));
            }
            lemma_ranks_follow_arcs(p.g, t, a, i);
            lemma_arc_leaders(p.g, k - 1);
            lemma_relaxed(p.g, p.g.n);
            lemma_settled(p, pos, p.rank(i), a);
        }
    }
}

proof fn lemma_arc_leaders(g: Graph, k: int)
    requires
        g.wf(),
        0 <= k < g.arcs.len(),
    ensures
        g.leader(g.arcs[k].0) == g.leader(g.arcs[k].1),
{
    let (a, b) = g.arcs[k];
    assert(g.linked(a, b)) by {
        assert(g.arcs[k] == (a, b));
    }
    let path = seq![a, b];
    assert(g.step(path, 0));
    assert(g.is_path(path));
    assert(path.first() == a && path.last() == b);
    lemma_leaders(g, a, b);
}

/// On a board without cycles the boxes of a column stand in the order of
/// those that connectors lead to them from: for an upper box and a lower one,
/// the mean of the places of the upper one's predecessors, each in its own
/// column, is at most that of the lower one's, both in hundredths and rounded
/// down. Where they are equal, the upper one comes first on the board.
pub proof fn lemma_upper_box_has_upper_predecessors(
    p: Plan,
    t: Seq<int>,
    pos: Seq<int>,
    a: int,
    b: int,
)
    requires
        p.wf(),
        topological(p.g, t),
        stands_at(p, pos),
        0 <= a < p.g.n,
        0 <= b < p.g.n,
        p.leader(a) == p.leader(b),
        p.rank(a) == p.rank(b),
        pos[a] < pos[b],
        incoming(p.g.arcs, a, p.g.arcs.len() as int) > 0,
        incoming(p.g.arcs, b, p.g.arcs.len() as int) > 0,
    ensures
        ({
            let n = p.g.arcs.len() as int;
            let upper = (100 * pull(p.g.arcs, pos, a, n)) / incoming(p.g.arcs, a, n);
            let lower = (100 * pull(p.g.arcs, pos, b, n)) / incoming(p.g.arcs, b, n);
            upper < lower || (upper == lower && a < b)
        }),
{
    let (s, r) = (p.leader(a), p.rank(a));
    let n = p.g.arcs.len() as int;
    lemma_column_is_sorted(p, s, r, pos[a], pos[b]);
    lemma_pull_settled(p, t, pos, a, n);
    lemma_pull_settled(p, t, pos, b, n);
    let order = p.order_upto(s, r);
    lemma_preds_are_incoming(p.g.arcs, order, a, n);
    lemma_preds_are_incoming(p.g.arcs, order, b, n);
    assert(p.g.arcs.take(n) =~= p.g.arcs);
}

/// Boxes of a column to which no connector leads stand in board order.
pub proof fn lemma_first_boxes_stand_in_board_order(p: Plan, pos: Seq<int>, a: int, b: int)
    requires
        p.wf(),
        stands_at(p, pos),
        0 <= a < p.g.n,
        0 <= b < p.g.n,
        p.leader(a) == p.leader(b),
        p.rank(a) == p.rank(b),
        incoming(p.g.arcs, a, p.g.arcs.len() as int) == 0,
        incoming(p.g.arcs, b, p.g.arcs.len() as int) == 0,
    ensures
        pos[a] < pos[b] <==> a < b,
{
    if a != b {
        let (s, r) = (p.leader(a), p.rank(a));
        lemma_relaxed(p.g, p.g.n);
        assert(0 <= p.g.ranks()[a]);
        assert(pos[a] >= 0 && pos[b] >= 0);
        if pos[a] == pos[b] {
            assert(p.column(s, r)[pos[a]] == a);
            assert(p.column(s, r)[pos[b]] == b);
        }
        let order = p.order_upto(s, r);
        lemma_key_is_the_mean_position(p, order, a);
        lemma_key_is_the_mean_position(p, order, b);
        lemma_settled(p, pos, r, a);
        lemma_settled(p, pos, r, b);
        if a < b {
            lemma_layer_grows(p, s, r, a, b);
        } else {
            lemma_layer_grows(p, s, r, b, a);
        }
        if pos[a] < pos[b] {
            lemma_column_is_sorted(p, s, r, pos[a], pos[b]);
        } else {
            lemma_column_is_sorted(p, s, r, pos[b], pos[a]);
        }
    }
}

proof fn lemma_layer_grows(p: Plan, s: int, r: int, i: int, j: int)
    requires
        0 <= i < j,
        p.leader(i) == s,
        p.rank(i) == r,
    ensures
        p.layer(s, r, i).len() < p.layer(s, r, j).len(),
    decreases j,
{
    if i < j - 1 {
        lemma_layer_grows(p, s, r, i, j - 1);
    }
}

/// Where a box of a layout is: below the start of its part by as much as the
/// boxes above it in its column take.
proof fn lemma_row(p: Plan, pos: Seq<int>, c: int, k: int)
    requires
        p.wf(),
        stands_at(p, pos),
        0 <= c <= p.g.n,
        0 <= k < p.laid(c).out.len(),
    ensures
        ({
            let e = p.laid(c).out[k];
            let s = p.leader(e.i);
            &&& 0 <= e.i < p.g.n
            &&& e.y == p.laid(s).y + p.run(p.column(s, p.rank(e.i)).take(pos[e.i]))
        }),
    decreases c,
{
    if c > 0 {
        let before = p.laid(c - 1);
        if k < before.out.len() {
            assert(p.laid(c).out[k] == before.out[k]);
            lemma_row(p, pos, c - 1, k);
        } else {
            lemma_row_of_part(p, pos, c - 1, before.y, p.limit(), k - before.out.len());
        }
    }
}

proof fn lemma_row_of_part(p: Plan, pos: Seq<int>, s: int, y: int, r: int, k: int)
    requires
        p.wf(),
        stands_at(p, pos),
        0 <= k < p.columns(s, y, r).out.len(),
    ensures
        ({
            let e = p.columns(s, y, r).out[k];
            &&& 0 <= e.i < p.g.n
            &&& p.leader(e.i) == s
            &&& e.y == y + p.run(p.column(s, p.rank(e.i)).take(pos[e.i]))
        }),
    decreases r,
{
    if r > 0 {
        let before = p.columns(s, y, r - 1);
        let col = p.column(s, r - 1);
        let n = before.out.len();
        if k < n {
            assert(p.columns(s, y, r).out[k] == before.out[k]);
            lemma_row_of_part(p, pos, s, y, r - 1, k);
        } else {
            lemma_column(p, s, r - 1);
            lemma_column_distinct(p, s, r - 1);
            lemma_stack(p, col, before.x, y);
            let m = k - n;
            assert(p.columns(s, y, r).out[k] == p.stack(col, before.x, y)[m]);
            let i = col[m];
            assert(0 <= i < p.g.n && p.leader(i) == s && p.rank(i) == r - 1);
            assert(0 <= pos[i] < col.len() && col[pos[i]] == i);
            assert(pos[i] == m);
        }
    }
}

/// Of two boxes of one column the one with the lower index is the upper one,
/// and boxes next to each other have just the gap between them.
pub proof fn lemma_column_runs_down(p: Plan, pos: Seq<int>, j: int, k: int)
    requires
        p.wf(),
        stands_at(p, pos),
        0 <= j < p.spots().len(),
        0 <= k < p.spots().len(),
        p.leader(p.spots()[j].i) == p.leader(p.spots()[k].i),
        p.rank(p.spots()[j].i) == p.rank(p.spots()[k].i),
    ensures
        ({
            let (e, f) = (p.spots()[j], p.spots()[k]);
            &&& 0 <= e.i < p.g.n && 0 <= f.i < p.g.n
            &&& e.x == f.x
            &&& pos[e.i] < pos[f.i] <==> e.y < f.y
            &&& pos[f.i] == pos[e.i] + 1 ==> f.y == e.y + p.rects[e.i].height + GAP_Y
        }),
{
    lemma_row(p, pos, p.g.n, j);
    lemma_row(p, pos, p.g.n, k);
    lemma_where(p, p.g.n, j);
    lemma_where(p, p.g.n, k);
    let (e, f) = (p.spots()[j], p.spots()[k]);
    let col = p.column(p.leader(e.i), p.rank(e.i));
    assert(0 <= pos[e.i] < col.len() && 0 <= pos[f.i] < col.len());
    if pos[e.i] < pos[f.i] {
        lemma_run_prefix(p, col, pos[e.i], pos[f.i]);
        if pos[f.i] == pos[e.i] + 1 {
            assert(col.take(pos[f.i]).drop_last() =~= col.take(pos[e.i]));
        }
    } else {
        lemma_run_prefix(p, col, pos[f.i], pos[e.i]);
    }
}

/// The places of a plan's boxes in their columns.
pub proof fn lemma_places_exist(p: Plan) -> (pos: Seq<int>)
    requires
        p.wf(),
    ensures
        stands_at(p, pos),
{
    broadcast use vstd::seq_lib::group_to_multiset_ensures;

    let pos = Seq::new(
        p.g.n as nat,
        |i: int| choose|k: int|
            0 <= k < p.column(p.leader(i), p.rank(i)).len() && p.column(p.leader(i), p.rank(i))[k]
                == i,
    );
    assert forall|i: int| 0 <= i < p.g.n implies ({
        let col = p.column(p.leader(i), p.rank(i));
        0 <= #[trigger] pos[i] < col.len() && col[pos[i]] == i
    }) by {
        let col = p.column(p.leader(i), p.rank(i));
        lemma_column(p, p.leader(i), p.rank(i));
        lemma_layer_count(p, p.leader(i), p.rank(i), p.g.n, i);
        assert(col.to_multiset().count(i) > 0);
        assert(col.contains(i));
    }
    pos
}

/// Whether one connector, and no other, leads to a box, and it comes from
/// another.
pub open spec fn only_from(g: Graph, a: int, b: int) -> bool {
    &&& g.arcs.contains((a, b))
    &&& incoming(g.arcs, b, g.arcs.len() as int) == 1
}

proof fn lemma_one_pull(arcs: Seq<(int, int)>, pos: Seq<int>, a: int, b: int, k: int, m: int)
    requires
        0 <= m < k <= arcs.len(),
        arcs[m] == (a, b),
    ensures
        incoming(arcs, b, k) >= 1,
        incoming(arcs, b, k) == 1 ==> pull(arcs, pos, b, k) == pos[a],
    decreases k,
{
    lemma_no_pull(arcs, pos, b, k - 1);
    if m < k - 1 {
        lemma_one_pull(arcs, pos, a, b, k - 1, m);
    }
}

proof fn lemma_no_pull(arcs: Seq<(int, int)>, pos: Seq<int>, b: int, k: int)
    requires
        0 <= k <= arcs.len(),
    ensures
        incoming(arcs, b, k) >= 0,
        incoming(arcs, b, k) == 0 ==> pull(arcs, pos, b, k) == 0,
    decreases k,
{
    if k > 0 {
        lemma_no_pull(arcs, pos, b, k - 1);
    }
}

/// Connectors do not cross where they need not. On a board without cycles
/// take two boxes of one column, each reached by one connector only, and the
/// two boxes of another column that those connectors come from: they stand
/// the same way round. Two that are reached from the same box stand in board
/// order.
pub proof fn lemma_lone_connectors_do_not_cross(
    p: Plan,
    t: Seq<int>,
    a: int,
    b: int,
    c: int,
    d: int,
)
    requires
        p.wf(),
        topological(p.g, t),
        0 <= a < p.spots().len(),
        0 <= b < p.spots().len(),
        0 <= c < p.spots().len(),
        0 <= d < p.spots().len(),
        only_from(p.g, p.spots()[a].i, p.spots()[c].i),
        only_from(p.g, p.spots()[b].i, p.spots()[d].i),
        p.rank(p.spots()[a].i) == p.rank(p.spots()[b].i),
        p.rank(p.spots()[c].i) == p.rank(p.spots()[d].i),
        p.leader(p.spots()[a].i) == p.leader(p.spots()[b].i),
    ensures
        p.spots()[a].y < p.spots()[b].y ==> p.spots()[c].y < p.spots()[d].y,
        p.spots()[a].i == p.spots()[b].i && p.spots()[c].i < p.spots()[d].i ==> p.spots()[c].y
            < p.spots()[d].y,
{
    let pos = lemma_places_exist(p);
    let (ai, bi, ci, di) = (p.spots()[a].i, p.spots()[b].i, p.spots()[c].i, p.spots()[d].i);
    let arcs = p.g.arcs;
    let n = arcs.len() as int;
    let m = choose|m: int| 0 <= m < arcs.len() && arcs[m] == (ai, ci);
    let l = choose|l: int| 0 <= l < arcs.len() && arcs[l] == (bi, di);
    lemma_arc_leaders(p.g, m);
    lemma_arc_leaders(p.g, l);
    lemma_one_pull(arcs, pos, ai, ci, n, m);
    lemma_one_pull(arcs, pos, bi, di, n, l);
    lemma_column_runs_down(p, pos, a, b);
    lemma_column_runs_down(p, pos, c, d);
    assert((100 * pos[ai]) / 1 == 100 * pos[ai]);
    assert((100 * pos[bi]) / 1 == 100 * pos[bi]);
    if ci != di {
        let col = p.column(p.leader(ci), p.rank(ci));
        assert(0 <= pos[ci] < col.len() && col[pos[ci]] == ci);
        assert(0 <= pos[di] < col.len() && col[pos[di]] == di);
        if pos[di] < pos[ci] {
            lemma_upper_box_has_upper_predecessors(p, t, pos, di, ci);
        }
    } else {
        lemma_two_arcs(arcs, ci, m, l, n);
    }
}

/// Two connectors to a box count twice.
proof fn lemma_two_arcs(arcs: Seq<(int, int)>, b: int, m: int, l: int, k: int)
    requires
        0 <= m < k <= arcs.len(),
        0 <= l < k,
        arcs[m].1 == b,
        arcs[l].1 == b,
        incoming(arcs, b, k) == 1,
    ensures
        m == l,
    decreases k,
{
    let pos = Seq::new(0, |i: int| 0int);
    lemma_no_pull(arcs, pos, b, k - 1);
    if m == k - 1 && l < k - 1 {
        lemma_one_pull(arcs, pos, arcs[l].0, b, k - 1, l);
    } else if l == k - 1 && m < k - 1 {
        lemma_one_pull(arcs, pos, arcs[m].0, b, k - 1, m);
    } else if m < k - 1 && l < k - 1 {
        lemma_one_pull(arcs, pos, arcs[m].0, b, k - 1, m);
        lemma_two_arcs(arcs, b, m, l, k - 1);
    }
}

/// Whether every rank but 0 is at most one more than that of a box that a
/// connector leads from.
spec fn supported(g: Graph, rank: Seq<int>) -> bool {
    &&& rank.len() == g.n
    &&& forall|b: int|
        0 <= b < g.n && #[trigger] rank[b] != 0 ==> exists|a: int|
            0 <= a < g.n && #[trigger] g.arcs.contains((a, b)) && rank[b] <= rank[a] + 1
}

proof fn lemma_supported_list(g: Graph, rank: Seq<int>, a: int, bs: Seq<int>)
    requires
        g.wf(),
        supported(g, rank),
        0 <= a < g.n,
        forall|k: int| 0 <= k < bs.len() ==> g.arcs.contains((a, #[trigger] bs[k])),
    ensures
        supported(g, relax_list(rank, a, bs)),
    decreases bs.len(),
{
    if bs.len() > 0 {
        let rest = bs.drop_last();
        assert forall|k: int| 0 <= k < rest.len() implies g.arcs.contains(
            (a, #[trigger] rest[k]),
        ) by {
            assert(rest[k] == bs[k]);
        }
        lemma_supported_list(g, rank, a, rest);
        let r = relax_list(rank, a, rest);
        let b = bs.last();
        assert(g.arcs.contains((a, bs[bs.len() - 1])));
        let m = choose|m: int| 0 <= m < g.arcs.len() && g.arcs[m] == (a, b);
        assert(0 <= g.arcs[m].1 < g.n && g.arcs[m].0 != g.arcs[m].1);
        let out = relax_list(rank, a, bs);
        assert forall|c: int| 0 <= c < g.n && #[trigger] out[c] != 0 implies exists|d: int|
            0 <= d < g.n && #[trigger] g.arcs.contains((d, c)) && out[c] <= out[d] + 1 by {
            if c == b && r[b] < r[a] + 1 {
                assert(g.arcs.contains((a, c)) && out[c] <= out[a] + 1);
            } else {
                assert(r[c] != 0);
                let d = choose|d: int|
                    0 <= d < g.n && #[trigger] g.arcs.contains((d, c)) && r[c] <= r[d] + 1;
                assert(g.arcs.contains((d, c)) && out[c] <= out[d] + 1);
            }
        }
    }
}

proof fn lemma_supported_upto(g: Graph, rank: Seq<int>, a: int)
    requires
        g.wf(),
        supported(g, rank),
        0 <= a <= g.n,
    ensures
        supported(g, g.relax_upto(rank, a)),
    decreases a,
{
    if a > 0 {
        lemma_supported_upto(g, rank, a - 1);
        lemma_succs(g.arcs, a - 1);
        lemma_supported_list(g, g.relax_upto(rank, a - 1), a - 1, succs(g.arcs, a - 1));
    }
}

proof fn lemma_supported(g: Graph, k: int)
    requires
        g.wf(),
    ensures
        supported(g, g.relaxed(k)),
    decreases k,
{
    if k > 0 {
        lemma_supported(g, k - 1);
        lemma_supported_upto(g, g.relaxed(k - 1), g.n);
    }
}

/// On a board without cycles a box's column is as far right as the longest
/// way to it is long: no connector leads to a box of the first column, and
/// every other box stands one column right of the furthest box that a
/// connector leads to it from.
pub proof fn lemma_rank_is_the_longest_way(g: Graph, t: Seq<int>, b: int)
    requires
        g.wf(),
        topological(g, t),
        0 <= b < g.n,
    ensures
        g.ranks()[b] >= 0,
        forall|a: int| #[trigger] g.arcs.contains((a, b)) ==> g.ranks()[a] + 1 <= g.ranks()[b],
        g.ranks()[b] > 0 ==> exists|a: int| #[trigger]
            g.arcs.contains((a, b)) && g.ranks()[a] + 1 == g.ranks()[b],
{
    lemma_relaxed(g, g.n);
    lemma_supported(g, g.n);
    assert forall|a: int| #[trigger] g.arcs.contains((a, b)) implies g.ranks()[a] + 1
        <= g.ranks()[b] by {
        lemma_ranks_follow_arcs(g, t, a, b);
    }
    if g.ranks()[b] > 0 {
        let a = choose|a: int|
            0 <= a < g.n && #[trigger] g.arcs.contains((a, b)) && g.ranks()[b] <= g.ranks()[a] + 1;
        assert(g.arcs.contains((a, b)) && g.ranks()[a] + 1 == g.ranks()[b]);
    }
}

proof fn lemma_some_time(out: Seq<Spot>, i: int)
    requires
        times(out, i) > 0,
    ensures
        exists|k: int| 0 <= k < out.len() && (#[trigger] out[k]).i == i,
    decreases out.len(),
{
    if out.last().i == i {
        assert(out[out.len() - 1].i == i);
    } else {
        lemma_some_time(out.drop_last(), i);
        let k = choose|k: int|
            0 <= k < out.drop_last().len() && (#[trigger] out.drop_last()[k]).i == i;
        assert(out[k].i == i);
    }
}

proof fn lemma_widest_is_one(p: Plan, col: Seq<int>)
    requires
        col.len() > 0,
    ensures
        exists|k: int| 0 <= k < col.len() && p.rects[#[trigger] col[k]].width == p.widest(col),
    decreases col.len(),
{
    let last = col.len() - 1;
    if p.rects[col[last]].width == p.widest(col) {
        assert(p.rects[col[last]].width == p.widest(col));
    } else {
        let rest = col.drop_last();
        if rest.len() == 0 {
            assert(p.widest(rest) == 0);
        } else {
            lemma_widest_is_one(p, rest);
            let k = choose|k: int|
                0 <= k < rest.len() && p.rects[#[trigger] rest[k]].width == p.widest(rest);
            assert(col[k] == rest[k]);
        }
    }
}

/// Columns stand as close as the gap allows. On a board without cycles, left
/// of every box that a connector leads to there is a box of its part that
/// ends just the gap before it.
pub proof fn lemma_columns_are_close(p: Plan, t: Seq<int>, k: int)
    requires
        p.wf(),
        topological(p.g, t),
        0 <= k < p.spots().len(),
        p.rank(p.spots()[k].i) > 0,
    ensures
        exists|j: int|
            0 <= j < p.spots().len() && p.leader((#[trigger] p.spots()[j]).i) == p.leader(
                p.spots()[k].i,
            ) && p.spots()[j].x + p.rects[p.spots()[j].i].width + GAP_X == p.spots()[k].x,
{
    let f = p.spots()[k];
    lemma_where(p, p.g.n, k);
    let (s, r) = (p.leader(f.i), p.rank(f.i));
    lemma_rank_is_the_longest_way(p.g, t, f.i);
    let a = choose|a: int| #[trigger]
        p.g.arcs.contains((a, f.i)) && p.g.ranks()[a] + 1 == p.g.ranks()[f.i];
    let m = choose|m: int| 0 <= m < p.g.arcs.len() && p.g.arcs[m] == (a, f.i);
    assert(0 <= p.g.arcs[m].0 < p.g.n);
    lemma_arc_leaders(p.g, m);
    let pos = lemma_places_exist(p);
    let col = p.column(s, r - 1);
    assert(0 <= pos[a] < col.len());
    lemma_column(p, s, r - 1);
    lemma_widest_is_one(p, col);
    let w = choose|w: int| 0 <= w < col.len() && p.rects[#[trigger] col[w]].width == p.widest(col);
    let i = col[w];
    assert(0 <= i < p.g.n && p.leader(i) == s && p.rank(i) == r - 1);
    lemma_every_box_is_placed_once(p, i);
    lemma_some_time(p.spots(), i);
    let j = choose|j: int| 0 <= j < p.spots().len() && (#[trigger] p.spots()[j]).i == i;
    lemma_where(p, p.g.n, j);
    assert(p.leader(p.spots()[j].i) == p.leader(p.spots()[k].i));
}

/// A part ends with its lowest box, and the part below it starts just the gap
/// further down: its first box is put there.
pub proof fn lemma_parts_are_close(p: Plan, c: int)
    requires
        0 < c <= p.g.n,
        p.leader(c - 1) == c - 1,
        p.columns(c - 1, p.laid(c - 1).y, p.limit()).out.len() > 0,
    ensures
        ({
            let (before, laid) = (p.laid(c - 1), p.laid(c));
            &&& exists|k: int|
                before.out.len() <= k < laid.out.len() && (#[trigger] laid.out[k]).y
                    + p.rects[laid.out[k].i].height + COMPONENT_GAP == laid.y
            &&& forall|k: int|
                before.out.len() <= k < laid.out.len() ==> (#[trigger] laid.out[k]).y
                    + p.rects[laid.out[k].i].height + COMPONENT_GAP <= laid.y
            &&& laid.out[before.out.len() as int].y == before.y
        }),
{
    let (before, laid) = (p.laid(c - 1), p.laid(c));
    let cols = p.columns(c - 1, before.y, p.limit());
    lemma_bottom_is_reached(p, c - 1, before.y, p.limit());
    let j = choose|j: int|
        0 <= j < cols.out.len() && (#[trigger] cols.out[j]).y + p.rects[cols.out[j].i].height
            == cols.bottom;
    let k = before.out.len() + j;
    assert(laid.out[k] == cols.out[j]);
    assert forall|k: int| before.out.len() <= k < laid.out.len() implies (#[trigger] laid.out[k]).y
        + p.rects[laid.out[k].i].height + COMPONENT_GAP <= laid.y by {
        assert(laid.out[k] == cols.out[k - before.out.len()]);
    }
    assert(laid.out[before.out.len() as int] == cols.out[0]);
}

proof fn lemma_bottom_is_reached(p: Plan, s: int, y: int, r: int)
    ensures
        ({
            let cols = p.columns(s, y, r);
            &&& cols.out.len() == 0 ==> cols.bottom == y
            &&& cols.bottom >= y
            &&& cols.out.len() > 0 ==> cols.out[0].y == y && exists|k: int|
                0 <= k < cols.out.len() && (#[trigger] cols.out[k]).y
                    + p.rects[cols.out[k].i].height == cols.bottom
            &&& forall|k: int|
                0 <= k < cols.out.len() ==> (#[trigger] cols.out[k]).y
                    + p.rects[cols.out[k].i].height <= cols.bottom
        }),
    decreases r,
{
    if r > 0 {
        lemma_bottom_is_reached(p, s, y, r - 1);
        let before = p.columns(s, y, r - 1);
        let col = p.column(s, r - 1);
        let cols = p.columns(s, y, r);
        if col.len() > 0 {
            let added = p.stack(col, before.x, y);
            let last = col.len() - 1;
            lemma_stack(p, col, before.x, y);
            lemma_run_prefix(p, col, 0, last);
            assert(col.take(last) =~= col.drop_last());
            assert(col.take(0) =~= Seq::<int>::empty());
            assert(added[0].y == y);
            assert(added[last].y + p.rects[added[last].i].height == y + p.run(col) - GAP_Y);
            assert forall|k: int| 0 <= k < cols.out.len() implies (#[trigger] cols.out[k]).y
                + p.rects[cols.out[k].i].height <= cols.bottom by {
                if k < before.out.len() {
                    assert(cols.out[k] == before.out[k]);
                } else {
                    let j = k - before.out.len();
                    assert(cols.out[k] == added[j]);
                    lemma_run_prefix(p, col, j, col.len() as int);
                }
            }
            let low = y + p.run(col) - GAP_Y;
            if before.out.len() > 0 && before.bottom >= low {
                let j = choose|j: int|
                    0 <= j < before.out.len() && (#[trigger] before.out[j]).y
                        + p.rects[before.out[j].i].height == before.bottom;
                assert(cols.out[j] == before.out[j]);
            } else {
                assert(cols.out[before.out.len() + last] == added[last]);
            }
            if before.out.len() > 0 {
                assert(cols.out[0] == before.out[0]);
            } else {
                assert(cols.out[0] == added[0]);
            }
        }
    }
}

} // verus!

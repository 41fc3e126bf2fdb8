//! Auto-layout: layered, left to right, the way dependency graphs are
//! usually drawn. Boxes and connectors can be poured in without computing a
//! single coordinate, and a layout then makes a readable diagram of them.

use vstd::arithmetic::div_mod::lemma_hoist_over_denominator;
use vstd::prelude::*;

use crate::geometry::{max, to_i32};
use crate::graph::{
    arcs_of, find_leaders, find_ranks, ints, lemma_preds, lemma_relaxed, links, lists_preds,
    preds, rank_ints, Graph,
};
use crate::model::{node_views, Canvas, CanvasView, Node, NodeKind, NodeView, ShapeId, WorldRect};

verus! {

/// Columns between two layers.
pub const GAP_X: i32 = 6;

/// Rows between two boxes of a layer.
pub const GAP_Y: i32 = 2;

/// Rows between two parts of a board that no connector joins.
pub const COMPONENT_GAP: i32 = 4;

/// A box put at a place: its index, and its top-left corner.
pub ghost struct Spot {
    pub i: int,
    pub x: int,
    pub y: int,
}

/// What is to be laid out: the graph, the size of every box, and the corner
/// that the arrangement starts from.
pub ghost struct Plan {
    pub g: Graph,
    pub rects: Seq<WorldRect>,
    pub x: int,
    pub y: int,
}

/// The columns of one part of a board up to some rank.
pub ghost struct Columns {
    pub out: Seq<Spot>,
    pub x: int,
    pub bottom: int,
}

/// The parts of a board laid out so far, and the row for the next.
pub ghost struct Laid {
    pub out: Seq<Spot>,
    pub y: int,
}

/// The sum of the positions of some boxes.
pub open spec fn sum_orders(order: Seq<int>, ps: Seq<int>) -> int
    decreases ps.len(),
{
    if ps.len() == 0 {
        0
    } else {
        sum_orders(order, ps.drop_last()) + order[ps.last()]
    }
}

/// Positions with each box of a layer at its index in the layer.
pub open spec fn placed_order(order: Seq<int>, layer: Seq<int>) -> Seq<int>
    decreases layer.len(),
{
    if layer.len() == 0 {
        order
    } else {
        placed_order(order, layer.drop_last()).update(layer.last(), layer.len() - 1)
    }
}

impl Plan {
    pub open spec fn wf(self) -> bool {
        self.g.wf() && self.rects.len() == self.g.n
    }

    pub open spec fn rank(self, i: int) -> int {
        self.g.ranks()[i]
    }

    pub open spec fn leader(self, i: int) -> int {
        self.g.leader(i)
    }

    /// The boxes before `upto` that have the leader and the rank, in order.
    pub open spec fn layer(self, s: int, r: int, upto: int) -> Seq<int>
        decreases upto,
    {
        if upto <= 0 {
            Seq::empty()
        } else {
            let before = self.layer(s, r, upto - 1);
            if self.leader(upto - 1) == s && self.rank(upto - 1) == r {
                before.push(upto - 1)
            } else {
                before
            }
        }
    }

    /// Where every box stands in its layer at first: in board order.
    pub open spec fn first_order(self) -> Seq<int> {
        Seq::new(
            self.g.n as nat,
            |i: int| self.layer(self.leader(i), self.rank(i), i).len() as int,
        )
    }

    /// What a box sorts by: the average position of its predecessors, in
    /// hundredths, or its own where it has none.
    pub open spec fn key(self, order: Seq<int>, i: int) -> int {
        let ps = preds(self.g.arcs, i);
        if ps.len() == 0 {
            order[i] * 100
        } else {
            (sum_orders(order, ps) * 100) / (ps.len() as int)
        }
    }

    /// A sorted layer with a box put behind every one that sorts no later.
    pub open spec fn inserted(self, order: Seq<int>, sorted: Seq<int>, i: int) -> Seq<int>
        decreases sorted.len(),
    {
        if sorted.len() == 0 || self.key(order, sorted.last()) <= self.key(order, i) {
            sorted.push(i)
        } else {
            self.inserted(order, sorted.drop_last(), i).push(sorted.last())
        }
    }

    /// A layer sorted by key; boxes with the same key keep their order.
    pub open spec fn sorted(self, order: Seq<int>, layer: Seq<int>) -> Seq<int>
        decreases layer.len(),
    {
        if layer.len() == 0 {
            Seq::empty()
        } else {
            self.inserted(order, self.sorted(order, layer.drop_last()), layer.last())
        }
    }

    /// The positions once the layers below rank `r` of a part are sorted.
    pub open spec fn order_upto(self, s: int, r: int) -> Seq<int>
        decreases r, 0nat,
    {
        if r <= 0 {
            self.first_order()
        } else {
            placed_order(self.order_upto(s, r - 1), self.column(s, r - 1))
        }
    }

    /// The layer of rank `r` of a part, sorted.
    pub open spec fn column(self, s: int, r: int) -> Seq<int>
        decreases r, 1nat,
    {
        self.sorted(self.order_upto(s, r), self.layer(s, r, self.g.n))
    }

    /// The rows that some boxes take, one below the other, each with the
    /// gap after it.
    pub open spec fn run(self, col: Seq<int>) -> int
        decreases col.len(),
    {
        if col.len() == 0 {
            0
        } else {
            self.run(col.drop_last()) + self.rects[col.last()].height + GAP_Y
        }
    }

    /// The width of the widest of some boxes.
    pub open spec fn widest(self, col: Seq<int>) -> int
        decreases col.len(),
    {
        if col.len() == 0 {
            0
        } else {
            max(self.widest(col.drop_last()), self.rects[col.last()].width as int)
        }
    }

    /// Some boxes put one below the other.
    pub open spec fn stack(self, col: Seq<int>, x: int, y: int) -> Seq<Spot>
        decreases col.len(),
    {
        if col.len() == 0 {
            Seq::empty()
        } else {
            self.stack(col.drop_last(), x, y).push(
                Spot { i: col.last(), x, y: y + self.run(col.drop_last()) },
            )
        }
    }

    /// The layers below rank `r` of a part, side by side from row `y` down.
    pub open spec fn columns(self, s: int, y: int, r: int) -> Columns
        decreases r,
    {
        if r <= 0 {
            Columns { out: Seq::empty(), x: self.x, bottom: y }
        } else {
            let before = self.columns(s, y, r - 1);
            let col = self.column(s, r - 1);
            if col.len() == 0 {
                before
            } else {
                Columns {
                    out: before.out + self.stack(col, before.x, y),
                    x: before.x + self.widest(col) + GAP_X,
                    bottom: max(before.bottom, y + self.run(col) - GAP_Y),
                }
            }
        }
    }

    /// A rank above every box's.
    pub open spec fn limit(self) -> int {
        self.g.n * self.g.n + 1
    }

    /// The parts led by boxes before `c`, one below the other.
    pub open spec fn laid(self, c: int) -> Laid
        decreases c,
    {
        if c <= 0 {
            Laid { out: Seq::empty(), y: self.y }
        } else {
            let before = self.laid(c - 1);
            if self.leader(c - 1) == c - 1 {
                let cols = self.columns(c - 1, before.y, self.limit());
                Laid { out: before.out + cols.out, y: cols.bottom + COMPONENT_GAP }
            } else {
                before
            }
        }
    }

    /// Where every box goes.
    pub open spec fn spots(self) -> Seq<Spot> {
        self.laid(self.g.n).out
    }
}

/// The test for boxes that are no group.
pub open spec fn not_group() -> spec_fn(NodeView) -> bool {
    |n: NodeView| !(n.kind is Group)
}

/// The boxes that a layout moves. Groups are regions, not boxes.
pub open spec fn movable(c: CanvasView) -> Seq<NodeView> {
    c.nodes.filter(not_group())
}

/// The least left edge.
pub open spec fn least_x(nodes: Seq<NodeView>) -> int
    decreases nodes.len(),
{
    if nodes.len() == 0 {
        0
    } else if nodes.len() == 1 || nodes.last().rect.x < least_x(nodes.drop_last()) {
        nodes.last().rect.x as int
    } else {
        least_x(nodes.drop_last())
    }
}

/// The least top edge.
pub open spec fn least_y(nodes: Seq<NodeView>) -> int
    decreases nodes.len(),
{
    if nodes.len() == 0 {
        0
    } else if nodes.len() == 1 || nodes.last().rect.y < least_y(nodes.drop_last()) {
        nodes.last().rect.y as int
    } else {
        least_y(nodes.drop_last())
    }
}

/// What there is to lay out on a board.
pub open spec fn plan_of(c: CanvasView) -> Plan {
    let nodes = movable(c);
    Plan {
        g: Graph { n: nodes.len() as int, arcs: arcs_of(nodes, c.edges) },
        rects: Seq::new(nodes.len(), |i: int| nodes[i].rect),
        x: least_x(nodes),
        y: least_y(nodes),
    }
}

/// The new places of a board's boxes, as 32-bit coordinates.
pub open spec fn places(c: CanvasView) -> Seq<(Seq<char>, i32, i32)> {
    let spots = plan_of(c).spots();
    Seq::new(
        spots.len(),
        |k: int| (movable(c)[spots[k].i].id, to_i32(spots[k].x), to_i32(spots[k].y)),
    )
}

/// The ids and places of a list.
pub open spec fn place_views(s: Seq<(ShapeId, i32, i32)>) -> Seq<(Seq<char>, i32, i32)> {
    Seq::new(s.len(), |k: int| (s[k].0@, s[k].1, s[k].2))
}

/// Spots as the layout keeps them.
pub open spec fn spot_views(s: Seq<(usize, i128, i128)>) -> Seq<Spot> {
    Seq::new(s.len(), |k: int| Spot { i: s[k].0 as int, x: s[k].1 as int, y: s[k].2 as int })
}

pub proof fn lemma_layer(p: Plan, s: int, r: int, upto: int)
    requires
        0 <= upto,
    ensures
        p.layer(s, r, upto).len() <= upto,
        forall|k: int|
            0 <= k < p.layer(s, r, upto).len() ==> 0 <= #[trigger] p.layer(s, r, upto)[k] < upto
                && p.leader(p.layer(s, r, upto)[k]) == s && p.rank(p.layer(s, r, upto)[k]) == r,
        forall|i: int|
            0 <= i < upto && p.leader(i) == s && p.rank(i) == r ==> #[trigger] p.layer(
                s,
                r,
                upto,
            ).contains(i),
    decreases upto,
{
    if upto > 0 {
        lemma_layer(p, s, r, upto - 1);
        let before = p.layer(s, r, upto - 1);
        let all = p.layer(s, r, upto);
        assert forall|i: int|
            0 <= i < upto && p.leader(i) == s && p.rank(i) == r implies #[trigger] all.contains(
            i,
        ) by {
            if i < upto - 1 {
                assert(before.contains(i));
                let k = choose|k: int| 0 <= k < before.len() && before[k] == i;
                assert(all[k] == i);
            } else {
                assert(all[all.len() - 1] == i);
            }
        }
    }
}

/// Whether every entry is a box.
pub open spec fn all_boxes(p: Plan, s: Seq<int>) -> bool {
    forall|k: int| 0 <= k < s.len() ==> 0 <= #[trigger] s[k] < p.g.n
}

proof fn lemma_inserted(p: Plan, order: Seq<int>, sorted: Seq<int>, i: int)
    ensures
        p.inserted(order, sorted, i).len() == sorted.len() + 1,
        p.inserted(order, sorted, i).to_multiset() == sorted.to_multiset().insert(i),
    decreases sorted.len(),
{
    broadcast use vstd::seq_lib::group_to_multiset_ensures;

    if !(sorted.len() == 0 || p.key(order, sorted.last()) <= p.key(order, i)) {
        lemma_inserted(p, order, sorted.drop_last(), i);
        assert(sorted.drop_last().push(sorted.last()) =~= sorted);
        let head = p.inserted(order, sorted.drop_last(), i);
        assert(head.push(sorted.last()).to_multiset() =~= sorted.to_multiset().insert(i));
    }
}

proof fn lemma_sorted(p: Plan, order: Seq<int>, layer: Seq<int>)
    ensures
        p.sorted(order, layer).len() == layer.len(),
        p.sorted(order, layer).to_multiset() == layer.to_multiset(),
    decreases layer.len(),
{
    broadcast use vstd::seq_lib::group_to_multiset_ensures;

    if layer.len() > 0 {
        lemma_sorted(p, order, layer.drop_last());
        lemma_inserted(p, order, p.sorted(order, layer.drop_last()), layer.last());
        assert(layer.drop_last().push(layer.last()) =~= layer);
    } else {
        assert(p.sorted(order, layer) =~= layer);
    }
}

/// A layer sorted holds the boxes of the layer.
pub proof fn lemma_column(p: Plan, s: int, r: int)
    requires
        0 <= p.g.n,
    ensures
        p.column(s, r).len() == p.layer(s, r, p.g.n).len(),
        p.column(s, r).to_multiset() == p.layer(s, r, p.g.n).to_multiset(),
        all_boxes(p, p.column(s, r)),
        forall|k: int|
            0 <= k < p.column(s, r).len() ==> p.leader(#[trigger] p.column(s, r)[k]) == s && p.rank(
                p.column(s, r)[k],
            ) == r,
{
    broadcast use vstd::seq_lib::group_to_multiset_ensures;

    let layer = p.layer(s, r, p.g.n);
    let col = p.column(s, r);
    lemma_layer(p, s, r, p.g.n);
    lemma_sorted(p, p.order_upto(s, r), layer);
    assert forall|k: int| 0 <= k < col.len() implies 0 <= #[trigger] col[k] < p.g.n && p.leader(
        col[k],
    ) == s && p.rank(col[k]) == r by {
        assert(col.contains(col[k]));
        assert(col.to_multiset().count(col[k]) > 0);
        assert(layer.contains(col[k]));
        let j = choose|j: int| 0 <= j < layer.len() && layer[j] == col[k];
        assert(layer[j] == col[k]);
    }
}

/// Positions that stay below the number of boxes.
spec fn order_fits(p: Plan, order: Seq<int>) -> bool {
    order.len() == p.g.n && forall|i: int|
        0 <= i < p.g.n ==> 0 <= #[trigger] order[i] < p.g.n
}

proof fn lemma_placed_order(p: Plan, order: Seq<int>, layer: Seq<int>)
    requires
        order_fits(p, order),
        all_boxes(p, layer),
        layer.len() <= p.g.n,
    ensures
        order_fits(p, placed_order(order, layer)),
    decreases layer.len(),
{
    if layer.len() > 0 {
        let t = layer.drop_last();
        assert(all_boxes(p, t)) by {
            assert forall|k: int| 0 <= k < t.len() implies 0 <= #[trigger] t[k] < p.g.n by {
                assert(t[k] == layer[k]);
            }
        }
        lemma_placed_order(p, order, t);
        assert(0 <= layer[layer.len() - 1] < p.g.n);
    }
}

proof fn lemma_first_order(p: Plan)
    requires
        0 <= p.g.n,
    ensures
        order_fits(p, p.first_order()),
{
    assert forall|i: int| 0 <= i < p.g.n implies 0 <= #[trigger] p.first_order()[i] < p.g.n by {
        lemma_layer(p, p.leader(i), p.rank(i), i);
    }
}

/// Ranks that no box of a part has change nothing.
proof fn lemma_skip(p: Plan, s: int, y: int, r: int, to: int)
    requires
        0 <= p.g.n,
        0 <= r <= to,
        forall|i: int| 0 <= i < p.g.n && p.leader(i) == s ==> !(r <= #[trigger] p.rank(i) < to),
    ensures
        p.order_upto(s, to) == p.order_upto(s, r),
        p.columns(s, y, to) == p.columns(s, y, r),
    decreases to - r,
{
    if r < to {
        lemma_skip(p, s, y, r, to - 1);
        lemma_column(p, s, to - 1);
        lemma_layer(p, s, to - 1, p.g.n);
        if p.layer(s, to - 1, p.g.n).len() > 0 {
            let i = p.layer(s, to - 1, p.g.n)[0];
            assert(p.rank(i) == to - 1);
        }
        assert(p.column(s, to - 1).len() == 0);
    }
}

proof fn lemma_run(p: Plan, col: Seq<int>)
    ensures
        0 <= p.run(col) <= col.len() * 65537,
        0 <= p.widest(col) <= 65535,
    decreases col.len(),
{
    if col.len() > 0 {
        lemma_run(p, col.drop_last());
    }
}

proof fn lemma_stack_len(p: Plan, col: Seq<int>, x: int, y: int)
    ensures
        p.stack(col, x, y).len() == col.len(),
    decreases col.len(),
{
    if col.len() > 0 {
        lemma_stack_len(p, col.drop_last(), x, y);
    }
}

/// A list of places and sizes that the executable layout works on.
struct Work<'a> {
    nodes: &'a Vec<Node>,
    back: &'a Vec<Vec<usize>>,
    rank: &'a Vec<u128>,
    lead: &'a Vec<usize>,
}

impl<'a> Work<'a> {
    spec fn fits(self, p: Plan) -> bool {
        &&& p.wf()
        &&& self.nodes@.len() == p.g.n
        &&& forall|i: int| 0 <= i < p.g.n ==> (#[trigger] self.nodes@[i]).rect == p.rects[i]
        &&& lists_preds(p.g, self.back@)
        &&& rank_ints(self.rank@) == p.g.ranks()
        &&& self.rank@.len() == p.g.n
        &&& self.lead@.len() == p.g.n
        &&& forall|i: int| 0 <= i < p.g.n ==> #[trigger] self.lead@[i] == p.leader(i)
        &&& forall|i: int| 0 <= i < p.g.n ==> p.rank(i) == #[trigger] self.rank@[i]
    }
}

/// What a box sorts by.
fn find_key(w: &Work, order: &Vec<usize>, i: usize, Ghost(p): Ghost<Plan>) -> (r: u128)
    requires
        w.fits(p),
        i < p.g.n,
        order_fits(p, ints(order@)),
    ensures
        r == p.key(ints(order@), i as int),
{
    let ps: &Vec<usize> = &w.back[i];
    let ghost o = ints(order@);
    let ghost all = preds(p.g.arcs, i as int);
    proof {
        assert(ints(w.back@[i as int]@) == all);
        assert(o[i as int] == order@[i as int]);
    }
    let m: usize = ps.len();
    if m == 0 {
        return (order[i] as u128) * 100;
    }
    let mut sum: u128 = 0;
    let mut k: usize = 0;
    proof {
        lemma_preds(p.g.arcs, i as int);
    }
    while k < m
        invariant
            k <= m == ps@.len() == all.len(),
            p.wf(),
            o == ints(order@),
            order_fits(p, o),
            ints(ps@) == all,
            forall|j: int| 0 <= j < all.len() ==> p.g.arcs.contains((#[trigger] all[j], i as int)),
            sum == sum_orders(o, all.take(k as int)),
            sum <= k * u64::MAX,
        decreases m - k,
    {
        let a: usize = ps[k];
        proof {
            assert(all[k as int] == ints(ps@)[k as int]);
            assert(p.g.arcs.contains((all[k as int], i as int)));
            let j = choose|j: int|
                0 <= j < p.g.arcs.len() && p.g.arcs[j] == (all[k as int], i as int);
            assert(p.g.arcs[j].0 == a);
            assert(o[a as int] == order@[a as int]);
            assert(all.take(k + 1).drop_last() =~= all.take(k as int));
            assert(k * u64::MAX + u64::MAX == (k + 1) * u64::MAX) by (nonlinear_arith);
            assert((k + 1) * u64::MAX <= u64::MAX * u64::MAX) by (nonlinear_arith)
                requires
                    k + 1 <= u64::MAX,
            ;
        }
        sum = sum + (order[a] as u128);
        k += 1;
    }
    proof {
        assert(all.take(all.len() as int) =~= all);
    }
    let len: u128 = m as u128;
    let q: u128 = sum / len;
    let rem: u128 = sum % len;
    proof {
        lemma_key_parts(sum as int, len as int);
        assert(q <= u64::MAX) by (nonlinear_arith)
            requires
                q == sum / len,
                len > 0,
                sum <= len * u64::MAX,
        ;
    }
    q * 100 + (rem * 100) / len
}

proof fn lemma_key_parts(sum: int, len: int)
    requires
        sum >= 0,
        len > 0,
    ensures
        (sum * 100) / len == (sum / len) * 100 + ((sum % len) * 100) / len,
{
    let q = sum / len;
    let r = sum % len;
    vstd::arithmetic::div_mod::lemma_fundamental_div_mod(sum, len);
    assert(sum * 100 == r * 100 + (q * 100) * len) by (nonlinear_arith)
        requires
            sum == len * q + r,
    ;
    lemma_hoist_over_denominator(r * 100, q * 100, len as nat);
}

/// Puts a box into a sorted layer.
fn insert_sorted(
    w: &Work,
    order: &Vec<usize>,
    sorted: &mut Vec<usize>,
    i: usize,
    Ghost(p): Ghost<Plan>,
)
    requires
        w.fits(p),
        i < p.g.n,
        order_fits(p, ints(order@)),
        all_boxes(p, ints(old(sorted)@)),
    ensures
        ints(final(sorted)@) == p.inserted(ints(order@), ints(old(sorted)@), i as int),
        all_boxes(p, ints(final(sorted)@)),
{
    let ghost o = ints(order@);
    let ghost before = ints(sorted@);
    let key: u128 = find_key(w, order, i, Ghost(p));
    let mut at: usize = sorted.len();
    proof {
        assert(before.take(at as int) =~= before);
        assert(p.inserted(o, before.take(at as int), i as int) + before.skip(at as int)
            =~= p.inserted(o, before, i as int));
    }
    proof {
        assert forall|k: int| 0 <= k < sorted@.len() implies #[trigger] sorted@[k] < p.g.n by {
            assert(0 <= before[k] < p.g.n);
        }
    }
    while at > 0 && find_key(w, order, sorted[at - 1], Ghost(p)) > key
        invariant
            at <= sorted@.len(),
            forall|k: int| 0 <= k < sorted@.len() ==> #[trigger] sorted@[k] < p.g.n,
            w.fits(p),
            i < p.g.n,
            o == ints(order@),
            order_fits(p, o),
            before == ints(sorted@),
            all_boxes(p, before),
            key == p.key(o, i as int),
            p.inserted(o, before, i as int) == p.inserted(o, before.take(at as int), i as int)
                + before.skip(at as int),
        decreases at,
    {
        proof {
            let head = before.take(at as int);
            assert(head.drop_last() =~= before.take(at - 1));
            assert(before.skip(at - 1) =~= seq![before[at - 1]] + before.skip(at as int));
            assert(p.inserted(o, head, i as int) == p.inserted(
                o,
                before.take(at - 1),
                i as int,
            ).push(before[at - 1]));
            assert(p.inserted(o, head, i as int) + before.skip(at as int) =~= p.inserted(
                o,
                before.take(at - 1),
                i as int,
            ) + before.skip(at - 1));
        }
        at -= 1;
    }
    sorted.insert(at, i);
    proof {
        let head = before.take(at as int);
        if at > 0 {
            assert(head.last() == before[at - 1]);
        }
        assert(p.inserted(o, head, i as int) == head.push(i as int));
        assert(ints(sorted@) =~= head.push(i as int) + before.skip(at as int));
    }
}

/// The sorted layer of rank `r` of a part.
fn sort_layer(
    w: &Work,
    order: &Vec<usize>,
    s: usize,
    r: u128,
    Ghost(p): Ghost<Plan>,
) -> (col: Vec<usize>)
    requires
        w.fits(p),
        order_fits(p, ints(order@)),
    ensures
        ints(col@) == p.sorted(ints(order@), p.layer(s as int, r as int, p.g.n)),
        all_boxes(p, ints(col@)),
{
    let n: usize = w.nodes.len();
    let mut col: Vec<usize> = Vec::new();
    let mut i: usize = 0;
    let ghost o = ints(order@);
    proof {
        assert(ints(col@) =~= p.sorted(o, p.layer(s as int, r as int, 0)));
    }
    while i < n
        invariant
            i <= n == p.g.n,
            w.fits(p),
            o == ints(order@),
            order_fits(p, o),
            ints(col@) == p.sorted(o, p.layer(s as int, r as int, i as int)),
            all_boxes(p, ints(col@)),
        decreases n - i,
    {
        let ghost layer = p.layer(s as int, r as int, i as int);
        proof {
            assert(w.lead@[i as int] == p.leader(i as int));
            assert(w.rank@[i as int] == p.rank(i as int));
            assert(layer.push(i as int).drop_last() =~= layer);
        }
        if w.lead[i] == s && w.rank[i] == r {
            insert_sorted(w, order, &mut col, i, Ghost(p));
        }
        i += 1;
    }
    col
}

/// Notes where the boxes of a sorted layer stand.
fn note_order(order: &mut Vec<usize>, col: &Vec<usize>, Ghost(p): Ghost<Plan>)
    requires
        order_fits(p, ints(old(order)@)),
        all_boxes(p, ints(col@)),
        col@.len() <= p.g.n,
    ensures
        ints(final(order)@) == placed_order(ints(old(order)@), ints(col@)),
        order_fits(p, ints(final(order)@)),
{
    let ghost o = ints(order@);
    let ghost all = ints(col@);
    let mut k: usize = 0;
    proof {
        assert(all.take(0) =~= Seq::empty());
    }
    while k < col.len()
        invariant
            k <= col@.len(),
            all == ints(col@),
            all_boxes(p, all),
            order@.len() == p.g.n,
            ints(order@) == placed_order(o, all.take(k as int)),
        decreases col@.len() - k,
    {
        let ghost now = ints(order@);
        let i: usize = col[k];
        proof {
            assert(0 <= all[k as int] < p.g.n);
            assert(all.take(k + 1).drop_last() =~= all.take(k as int));
        }
        order.set(i, k);
        proof {
            assert(ints(order@) =~= now.update(i as int, k as int));
        }
        k += 1;
    }
    proof {
        assert(all.take(all.len() as int) =~= all);
        lemma_placed_order(p, o, all);
    }
}

/// The least rank from `r` on that a box of a part has.
fn next_rank(w: &Work, s: usize, r: u128, Ghost(p): Ghost<Plan>) -> (found: Option<u128>)
    requires
        w.fits(p),
    ensures
        match found {
            Some(q) => {
                &&& r <= q
                &&& exists|i: int| 0 <= i < p.g.n && p.leader(i) == s && #[trigger] p.rank(i) == q
                &&& forall|i: int|
                    0 <= i < p.g.n && p.leader(i) == s ==> !(r <= #[trigger] p.rank(i) < q)
            },
            None => forall|i: int| 0 <= i < p.g.n && p.leader(i) == s ==> #[trigger] p.rank(i) < r,
        },
{
    let n: usize = w.nodes.len();
    let mut found: Option<u128> = None;
    let mut i: usize = 0;
    while i < n
        invariant
            i <= n == p.g.n,
            w.fits(p),
            match found {
                Some(q) => {
                    &&& r <= q
                    &&& exists|j: int|
                        0 <= j < i && p.leader(j) == s && #[trigger] p.rank(j) == q
                    &&& forall|j: int|
                        0 <= j < i && p.leader(j) == s ==> !(r <= #[trigger] p.rank(j) < q)
                },
                None => forall|j: int|
                    0 <= j < i && p.leader(j) == s ==> #[trigger] p.rank(j) < r,
            },
        decreases n - i,
    {
        let q: u128 = w.rank[i];
        proof {
            assert(w.lead@[i as int] == p.leader(i as int));
            assert(w.rank@[i as int] == p.rank(i as int));
        }
        if w.lead[i] == s && q >= r {
            let better: bool = match found {
                Some(f) => q < f,
                None => true,
            };
            if better {
                found = Some(q);
            }
        }
        i += 1;
    }
    found
}

/// Puts a sorted layer below `top`, and gives the row past it and its
/// width.
fn put_column(
    w: &Work,
    col: &Vec<usize>,
    x: i128,
    top: i128,
    out: &mut Vec<(usize, i128, i128)>,
    Ghost(p): Ghost<Plan>,
) -> (r: (i128, i128))
    requires
        w.fits(p),
        all_boxes(p, ints(col@)),
        -0x1_0000_0000_0000_0000_0000_0000 <= top <= 0x1_0000_0000_0000_0000_0000_0000,
    ensures
        spot_views(final(out)@) == spot_views(old(out)@) + p.stack(
            ints(col@),
            x as int,
            top as int,
        ),
        r.0 == top + p.run(ints(col@)),
        r.1 == p.widest(ints(col@)),
{
    let ghost all = ints(col@);
    let ghost before = spot_views(out@);
    let mut y: i128 = top;
    let mut wide: i128 = 0;
    let m: usize = col.len();
    let mut k: usize = 0;
    proof {
        assert(all.take(0) =~= Seq::empty());
        assert(spot_views(out@) =~= before + p.stack(all.take(0), x as int, top as int));
    }
    while k < m
        invariant
            k <= m == col@.len(),
            w.fits(p),
            all == ints(col@),
            all_boxes(p, all),
            -0x1_0000_0000_0000_0000_0000_0000 <= top <= 0x1_0000_0000_0000_0000_0000_0000,
            y == top + p.run(all.take(k as int)),
            wide == p.widest(all.take(k as int)),
            spot_views(out@) == before + p.stack(all.take(k as int), x as int, top as int),
        decreases m - k,
    {
        let i: usize = col[k];
        let ghost now = spot_views(out@);
        let ghost upto = all.take(k + 1);
        proof {
            assert(0 <= all[k as int] < p.g.n);
            assert(upto.drop_last() =~= all.take(k as int));
            assert(w.nodes@[i as int].rect == p.rects[i as int]);
            lemma_run(p, all.take(k as int));
            lemma_run(p, upto);
        }
        out.push((i, x, y));
        proof {
            let spot = Spot { i: i as int, x: x as int, y: y as int };
            assert(spot_views(out@) =~= now.push(spot));
            assert(spot_views(out@) =~= before + p.stack(upto, x as int, top as int));
        }
        y = y + (w.nodes[i].rect.height as i128) + (GAP_Y as i128);
        let width: i128 = w.nodes[i].rect.width as i128;
        if wide < width {
            wide = width;
        }
        k += 1;
    }
    proof {
        assert(all.take(all.len() as int) =~= all);
    }
    (y, wide)
}

/// Puts the layers of a part side by side below `top`, and gives the row
/// past them.
fn put_part(
    w: &Work,
    s: usize,
    x0: i128,
    top: i128,
    out: &mut Vec<(usize, i128, i128)>,
    Ghost(p): Ghost<Plan>,
) -> (bottom: i128)
    requires
        w.fits(p),
        s < p.g.n,
        x0 == p.x,
        i32::MIN <= x0 <= i32::MAX,
        i32::MIN <= top <= i32::MAX + old(out)@.len() * 0x10005 + s * 4,
    ensures
        spot_views(final(out)@) == spot_views(old(out)@) + p.columns(
            s as int,
            top as int,
            p.limit(),
        ).out,
        bottom == p.columns(s as int, top as int, p.limit()).bottom,
        top <= bottom <= top + (final(out)@.len() - old(out)@.len()) * 0x10005,
{
    let n: usize = w.nodes.len();
    let mut order: Vec<usize> = first_positions(w, Ghost(p));
    let ghost before = spot_views(out@);
    let ghost count = out@.len();
    let start: usize = out.len();
    let mut x: i128 = x0;
    let mut bottom: i128 = top;
    let mut r: u128 = 0;
    let ghost sp = s as int;
    let ghost y = top as int;
    proof {
        lemma_first_order(p);
        lemma_relaxed(p.g, p.g.n);
        assert(spot_views(out@) =~= before + p.columns(sp, y, 0).out);
        assert(p.g.n * p.g.n + 1 <= u128::MAX) by (nonlinear_arith)
            requires
                0 <= p.g.n <= u64::MAX,
        ;
    }
    let mut next: Option<u128> = next_rank(w, s, r, Ghost(p));
    while next.is_some()
        invariant
            n == p.g.n,
            w.fits(p),
            s < n,
            sp == s,
            y == top,
            count == start,
            count <= out@.len(),
            i32::MIN <= x0 <= i32::MAX,
            i32::MIN <= top <= i32::MAX + start * 0x10005 + s * 4,
            p.g.n * p.g.n + 1 <= u128::MAX,
            forall|i: int| 0 <= i < n ==> 0 <= #[trigger] p.rank(i) <= n * n,
            order_fits(p, ints(order@)),
            0 <= r <= p.limit(),
            ints(order@) == p.order_upto(sp, r as int),
            x == p.columns(sp, y, r as int).x,
            bottom == p.columns(sp, y, r as int).bottom,
            spot_views(out@) == before + p.columns(sp, y, r as int).out,
            x0 <= x <= x0 + (out@.len() - count) * 0x10005,
            top <= bottom <= top + (out@.len() - count) * 0x10005,
            match next {
                Some(q) => {
                    &&& r <= q
                    &&& exists|i: int|
                        0 <= i < p.g.n && p.leader(i) == s && #[trigger] p.rank(i) == q
                    &&& forall|i: int|
                        0 <= i < p.g.n && p.leader(i) == s ==> !(r <= #[trigger] p.rank(i) < q)
                },
                None => forall|i: int|
                    0 <= i < p.g.n && p.leader(i) == s ==> #[trigger] p.rank(i) < r,
            },
        ensures
            next is None,
        decreases p.limit() - r,
    {
        let q: u128 = match next {
            Some(q) => q,
            None => 0,
        };
        let total: usize = out.len();
        proof {
            lemma_skip(p, sp, y, r as int, q as int);
            let i = choose|i: int| 0 <= i < p.g.n && p.leader(i) == s && #[trigger] p.rank(i) == q;
            assert(q <= n * n);
        }
        let col: Vec<usize> = sort_layer(w, &order, s, q, Ghost(p));
        proof {
            lemma_column(p, sp, q as int);
            lemma_layer(p, sp, q as int, p.g.n);
            lemma_run(p, ints(col@));
            lemma_stack_len(p, ints(col@), x as int, y);
            assert(p.layer(sp, q as int, p.g.n).len() > 0) by {
                let i = choose|i: int|
                    0 <= i < p.g.n && p.leader(i) == s && #[trigger] p.rank(i) == q;
                assert(p.layer(sp, q as int, p.g.n).contains(i));
            }
            assert(total * 0x10005 <= u64::MAX * 0x10005);
            assert(start * 0x10005 <= u64::MAX * 0x10005);
        }
        note_order(&mut order, &col, Ghost(p));
        let ghost now = spot_views(out@);
        let (y_end, wide) = put_column(w, &col, x, top, out, Ghost(p));
        proof {
            let cols = p.columns(sp, y, q as int);
            let stacked = p.stack(ints(col@), x as int, y);
            assert(spot_views(out@) =~= before + (cols.out + stacked));
            assert(out@.len() == total + col@.len());
            assert(p.columns(sp, y, q + 1).out == cols.out + stacked);
        }
        let low: i128 = y_end - (GAP_Y as i128);
        if bottom < low {
            bottom = low;
        }
        x = x + wide + (GAP_X as i128);
        r = q + 1;
        next = next_rank(w, s, r, Ghost(p));
    }
    proof {
        lemma_skip(p, sp, y, r as int, p.limit());
    }
    bottom
}

/// Where every box stands in its layer at first.
fn first_positions(w: &Work, Ghost(p): Ghost<Plan>) -> (order: Vec<usize>)
    requires
        w.fits(p),
    ensures
        ints(order@) == p.first_order(),
{
    let n: usize = w.nodes.len();
    let mut order: Vec<usize> = Vec::new();
    while order.len() < n
        invariant
            order@.len() <= n == p.g.n,
            w.fits(p),
            forall|i: int|
                0 <= i < order@.len() ==> #[trigger] order@[i] == p.layer(
                    p.leader(i),
                    p.rank(i),
                    i,
                ).len(),
        decreases n - order@.len(),
    {
        let i: usize = order.len();
        let s: usize = w.lead[i];
        let r: u128 = w.rank[i];
        let mut count: usize = 0;
        let mut j: usize = 0;
        proof {
            assert(w.lead@[i as int] == p.leader(i as int));
            assert(w.rank@[i as int] == p.rank(i as int));
        }
        while j < i
            invariant
                j <= i < n == p.g.n,
                w.fits(p),
                s == p.leader(i as int),
                r == p.rank(i as int),
                count <= j,
                count == p.layer(s as int, r as int, j as int).len(),
            decreases i - j,
        {
            proof {
                assert(w.lead@[j as int] == p.leader(j as int));
                assert(w.rank@[j as int] == p.rank(j as int));
            }
            if w.lead[j] == s && w.rank[j] == r {
                count += 1;
            }
            j += 1;
        }
        order.push(count);
    }
    proof {
        assert(ints(order@) =~= p.first_order());
    }
    order
}

/// The boxes that a layout moves.
fn pick_movable(canvas: &Canvas) -> (r: Vec<Node>)
    ensures
        node_views(r@) == movable(canvas@),
{
    let ghost all = canvas@.nodes;
    let mut out: Vec<Node> = Vec::new();
    let mut i: usize = 0;
    proof {
        reveal(Seq::filter);
        assert(node_views(out@) =~= all.take(0).filter(not_group()));
    }
    while i < canvas.nodes.len()
        invariant
            i <= canvas.nodes@.len(),
            all == canvas@.nodes,
            node_views(out@) == all.take(i as int).filter(not_group()),
        decreases canvas.nodes@.len() - i,
    {
        let ghost kept = node_views(out@);
        proof {
            let upto = all.take(i as int);
            assert(all.take(i + 1) =~= upto.push(canvas.nodes@[i as int]@));
            upto.lemma_filter_push(canvas.nodes@[i as int]@, not_group());
        }
        let group: bool = match canvas.nodes[i].kind {
            NodeKind::Group { .. } => true,
            _ => false,
        };
        if !group {
            out.push(canvas.nodes[i].clone());
            proof {
                assert(node_views(out@) =~= kept.push(canvas.nodes@[i as int]@));
            }
        }
        i += 1;
    }
    proof {
        assert(all.take(all.len() as int) =~= all);
    }
    out
}

/// The corner that the content starts from.
fn find_origin(nodes: &Vec<Node>) -> (r: (i32, i32))
    ensures
        r.0 == least_x(node_views(nodes@)),
        r.1 == least_y(node_views(nodes@)),
{
    let ghost all = node_views(nodes@);
    let mut x: i32 = 0;
    let mut y: i32 = 0;
    let mut i: usize = 0;
    while i < nodes.len()
        invariant
            i <= nodes@.len(),
            all == node_views(nodes@),
            x == least_x(all.take(i as int)),
            y == least_y(all.take(i as int)),
        decreases nodes@.len() - i,
    {
        proof {
            assert(all.take(i + 1).drop_last() =~= all.take(i as int));
            assert(all.take(i + 1).last() == nodes@[i as int]@);
        }
        if i == 0 || nodes[i].rect.x < x {
            x = nodes[i].rect.x;
        }
        if i == 0 || nodes[i].rect.y < y {
            y = nodes[i].rect.y;
        }
        i += 1;
    }
    proof {
        assert(all.take(all.len() as int) =~= all);
    }
    (x, y)
}

fn cut_i32(v: i128) -> (r: i32)
    ensures
        r == to_i32(v as int),
{
    if v < i32::MIN as i128 {
        i32::MIN
    } else if v > i32::MAX as i128 {
        i32::MAX
    } else {
        v as i32
    }
}

proof fn lemma_spots_are_boxes(p: Plan, c: int)
    requires
        p.wf(),
        0 <= c <= p.g.n,
    ensures
        forall|k: int|
            0 <= k < p.laid(c).out.len() ==> 0 <= (#[trigger] p.laid(c).out[k]).i < p.g.n,
    decreases c,
{
    if c > 0 {
        lemma_spots_are_boxes(p, c - 1);
        let before = p.laid(c - 1);
        lemma_columns_are_boxes(p, c - 1, before.y, p.limit());
        let cols = p.columns(c - 1, before.y, p.limit());
        assert forall|k: int| 0 <= k < p.laid(c).out.len() implies 0 <= (#[trigger] p.laid(
            c,
        ).out[k]).i < p.g.n by {
            if k < before.out.len() {
                assert(p.laid(c).out[k] == before.out[k]);
            } else {
                assert(p.laid(c).out[k] == cols.out[k - before.out.len()]);
            }
        }
    }
}

proof fn lemma_columns_are_boxes(p: Plan, s: int, y: int, r: int)
    requires
        p.wf(),
    ensures
        forall|k: int|
            0 <= k < p.columns(s, y, r).out.len() ==> 0 <= (#[trigger] p.columns(s, y, r).out[k]).i
                < p.g.n,
    decreases r,
{
    if r > 0 {
        lemma_columns_are_boxes(p, s, y, r - 1);
        let before = p.columns(s, y, r - 1);
        let col = p.column(s, r - 1);
        lemma_column(p, s, r - 1);
        lemma_stack(p, col, before.x, y);
        let out = p.columns(s, y, r).out;
        assert forall|k: int| 0 <= k < out.len() implies 0 <= (#[trigger] out[k]).i < p.g.n by {
            if k < before.out.len() {
                assert(out[k] == before.out[k]);
            } else {
                assert(out[k] == p.stack(col, before.x, y)[k - before.out.len()]);
                assert(0 <= col[k - before.out.len()] < p.g.n);
            }
        }
    }
}

pub proof fn lemma_stack(p: Plan, col: Seq<int>, x: int, y: int)
    ensures
        p.stack(col, x, y).len() == col.len(),
        forall|k: int|
            0 <= k < col.len() ==> #[trigger] p.stack(col, x, y)[k] == (Spot {
                i: col[k],
                x,
                y: y + p.run(col.take(k)),
            }),
    decreases col.len(),
{
    if col.len() > 0 {
        lemma_stack(p, col.drop_last(), x, y);
        assert forall|k: int| 0 <= k < col.len() implies #[trigger] p.stack(col, x, y)[k] == (
        Spot { i: col[k], x, y: y + p.run(col.take(k)) }) by {
            if k < col.len() - 1 {
                assert(p.stack(col.drop_last(), x, y)[k] == p.stack(col, x, y)[k]);
                assert(col.drop_last().take(k) =~= col.take(k));
            } else {
                assert(col.take(k) =~= col.drop_last());
            }
        }
    }
}

/// New top-left positions for every box that the layout touches. Groups are
/// left alone: they are regions, not boxes. The whole arrangement starts
/// where the content already is.
pub fn layered(canvas: &Canvas) -> (r: Vec<(ShapeId, i32, i32)>)
    ensures
        place_views(r@) == places(canvas@),
{
    let nodes: Vec<Node> = pick_movable(canvas);
    let ghost p = plan_of(canvas@);
    let n: usize = nodes.len();
    let (succ_lists, pred_lists) = links(&nodes, &canvas.edges);
    let rank: Vec<u128> = find_ranks(&succ_lists, Ghost(p.g));
    let lead: Vec<usize> = find_leaders(&succ_lists, &pred_lists, Ghost(p.g));
    let (x0, y0) = find_origin(&nodes);
    let w = Work { nodes: &nodes, back: &pred_lists, rank: &rank, lead: &lead };
    proof {
        lemma_relaxed(p.g, p.g.n);
        assert(rank_ints(rank@).len() == rank@.len());
        assert forall|i: int| 0 <= i < p.g.n implies p.rank(i) == #[trigger] rank@[i] by {
            assert(rank_ints(rank@)[i] == rank@[i]);
        }
        assert forall|i: int| 0 <= i < p.g.n implies (#[trigger] nodes@[i]).rect == p.rects[i] by {
            assert(movable(canvas@)[i] == nodes@[i]@);
        }
        assert(w.fits(p));
    }
    let mut out: Vec<(usize, i128, i128)> = Vec::new();
    let mut top: i128 = y0 as i128;
    let mut c: usize = 0;
    proof {
        assert(spot_views(out@) =~= p.laid(0).out);
    }
    while c < n
        invariant
            c <= n == p.g.n,
            w.fits(p),
            w.nodes@.len() == n,
            x0 == p.x,
            spot_views(out@) == p.laid(c as int).out,
            top == p.laid(c as int).y,
            i32::MIN <= top <= i32::MAX + out@.len() * 0x10005 + c * 4,
        decreases n - c,
    {
        proof {
            assert(w.lead@[c as int] == p.leader(c as int));
        }
        let have: usize = out.len();
        if w.lead[c] == c {
            let bottom: i128 = put_part(&w, c, x0 as i128, top, &mut out, Ghost(p));
            proof {
                assert(have * 0x10005 <= u64::MAX * 0x10005);
                assert(out@.len() * 0x10005 == have * 0x10005 + (out@.len() - have) * 0x10005);
            }
            let now: usize = out.len();
            proof {
                assert(now * 0x10005 <= u64::MAX * 0x10005);
            }
            top = bottom + (COMPONENT_GAP as i128);
        }
        c += 1;
    }
    let mut r: Vec<(ShapeId, i32, i32)> = Vec::new();
    let mut k: usize = 0;
    proof {
        lemma_spots_are_boxes(p, p.g.n);
    }
    while k < out.len()
        invariant
            k <= out@.len(),
            p == plan_of(canvas@),
            node_views(nodes@) == movable(canvas@),
            spot_views(out@) == p.spots(),
            forall|j: int| 0 <= j < p.spots().len() ==> 0 <= (#[trigger] p.spots()[j]).i < p.g.n,
            r@.len() == k,
            forall|j: int|
                0 <= j < k ==> (r@[j].0@, r@[j].1, r@[j].2) == #[trigger] places(canvas@)[j],
        decreases out@.len() - k,
    {
        let (i, x, y) = out[k];
        proof {
            let spot = p.spots()[k as int];
            assert(spot == spot_views(out@)[k as int]);
            assert(spot.i == i);
            assert(movable(canvas@)[i as int] == nodes@[i as int]@);
        }
        r.push((nodes[i].id.clone(), cut_i32(x), cut_i32(y)));
        k += 1;
    }
    proof {
        assert(spot_views(out@).len() == out@.len());
        assert(place_views(r@) =~= places(canvas@));
    }
    r
}

} // verus!

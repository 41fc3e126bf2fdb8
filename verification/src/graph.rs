//! A board's boxes and connectors as a graph: which box leads to which, how
//! deep each one ranks, and which belong together.

use vstd::prelude::*;

use crate::model::{edge_views, node_views, Edge, EdgeView, Node, NodeView};
use crate::text::same_str;

verus! {

/// Boxes as numbers, and the connectors between them in order.
pub ghost struct Graph {
    pub n: int,
    pub arcs: Seq<(int, int)>,
}

/// The last index at which a box with the id stands.
pub open spec fn last_index(nodes: Seq<NodeView>, id: Seq<char>) -> Option<int>
    decreases nodes.len(),
{
    if nodes.len() == 0 {
        None
    } else if nodes.last().id == id {
        Some(nodes.len() - 1)
    } else {
        last_index(nodes.drop_last(), id)
    }
}

/// The connectors that join two different boxes, in order.
pub open spec fn arcs_of(nodes: Seq<NodeView>, edges: Seq<EdgeView>) -> Seq<(int, int)>
    decreases edges.len(),
{
    if edges.len() == 0 {
        Seq::empty()
    } else {
        let before = arcs_of(nodes, edges.drop_last());
        match (last_index(nodes, edges.last().from), last_index(nodes, edges.last().to)) {
            (Some(a), Some(b)) => if a != b {
                before.push((a, b))
            } else {
                before
            },
            _ => before,
        }
    }
}

/// Where the connectors that leave `a` lead, in order.
pub open spec fn succs(arcs: Seq<(int, int)>, a: int) -> Seq<int>
    decreases arcs.len(),
{
    if arcs.len() == 0 {
        Seq::empty()
    } else if arcs.last().0 == a {
        succs(arcs.drop_last(), a).push(arcs.last().1)
    } else {
        succs(arcs.drop_last(), a)
    }
}

/// Where the connectors that reach `b` come from, in order.
pub open spec fn preds(arcs: Seq<(int, int)>, b: int) -> Seq<int>
    decreases arcs.len(),
{
    if arcs.len() == 0 {
        Seq::empty()
    } else if arcs.last().1 == b {
        preds(arcs.drop_last(), b).push(arcs.last().0)
    } else {
        preds(arcs.drop_last(), b)
    }
}

/// Ranks after each of `bs` was moved past `a`.
pub open spec fn relax_list(rank: Seq<int>, a: int, bs: Seq<int>) -> Seq<int>
    decreases bs.len(),
{
    if bs.len() == 0 {
        rank
    } else {
        let r = relax_list(rank, a, bs.drop_last());
        let b = bs.last();
        if r[b] < r[a] + 1 {
            r.update(b, r[a] + 1)
        } else {
            r
        }
    }
}

impl Graph {
    /// Every connector joins two different boxes of the graph.
    pub open spec fn wf(self) -> bool {
        &&& 0 <= self.n
        &&& forall|k: int|
            0 <= k < self.arcs.len() ==> 0 <= (#[trigger] self.arcs[k]).0 < self.n && 0
                <= self.arcs[k].1 < self.n && self.arcs[k].0 != self.arcs[k].1
    }

    /// Ranks after the boxes before `a` had their successors moved past
    /// them.
    pub open spec fn relax_upto(self, rank: Seq<int>, a: int) -> Seq<int>
        decreases a,
    {
        if a <= 0 {
            rank
        } else {
            relax_list(self.relax_upto(rank, a - 1), a - 1, succs(self.arcs, a - 1))
        }
    }

    /// Ranks after `k` rounds over all boxes, from 0 each.
    pub open spec fn relaxed(self, k: int) -> Seq<int>
        decreases k,
    {
        if k <= 0 {
            Seq::new(self.n as nat, |i: int| 0)
        } else {
            self.relax_upto(self.relaxed(k - 1), self.n)
        }
    }

    /// The rank of every box: how many connectors lead to it at most. As
    /// many rounds as there are boxes; a cycle is cut off there.
    pub open spec fn ranks(self) -> Seq<int> {
        self.relaxed(self.n)
    }

    /// Whether a connector joins two boxes, in either direction.
    pub open spec fn linked(self, a: int, b: int) -> bool {
        exists|k: int|
            0 <= k < self.arcs.len() && (#[trigger] self.arcs[k] == (a, b) || self.arcs[k] == (
                b,
                a,
            ))
    }

    /// Whether a connector joins the boxes at `k` and after it.
    pub open spec fn step(self, path: Seq<int>, k: int) -> bool {
        self.linked(path[k], path[k + 1])
    }

    /// Whether connectors join each two boxes in a row.
    pub open spec fn is_path(self, path: Seq<int>) -> bool {
        &&& path.len() > 0
        &&& forall|k: int| 0 <= k < path.len() - 1 ==> #[trigger] self.step(path, k)
    }

    /// Whether a path of connectors joins two boxes.
    pub open spec fn connected(self, a: int, b: int) -> bool {
        exists|path: Seq<int>| #[trigger]
            self.is_path(path) && path.first() == a && path.last() == b
    }

    /// The first box from `j` on that is connected to box `i`.
    pub open spec fn first_connected(self, i: int, j: int) -> int
        decreases i - j,
    {
        if j >= i {
            i
        } else if self.connected(j, i) {
            j
        } else {
            self.first_connected(i, j + 1)
        }
    }

    /// The first box that is connected to box `i`: the same for all that
    /// belong together.
    pub open spec fn leader(self, i: int) -> int {
        self.first_connected(i, 0)
    }
}

/// Indices as integers.
pub open spec fn ints(v: Seq<usize>) -> Seq<int> {
    Seq::new(v.len(), |i: int| v[i] as int)
}

/// Whether the lists hold every box's successors.
pub open spec fn lists_succs(g: Graph, v: Seq<Vec<usize>>) -> bool {
    v.len() == g.n && forall|a: int|
        0 <= a < g.n ==> ints((#[trigger] v[a])@) == succs(g.arcs, a)
}

/// Whether the lists hold every box's predecessors.
pub open spec fn lists_preds(g: Graph, v: Seq<Vec<usize>>) -> bool {
    v.len() == g.n && forall|b: int|
        0 <= b < g.n ==> ints((#[trigger] v[b])@) == preds(g.arcs, b)
}

pub proof fn lemma_last_index(nodes: Seq<NodeView>, id: Seq<char>)
    ensures
        match last_index(nodes, id) {
            Some(i) => 0 <= i < nodes.len() && nodes[i].id == id,
            None => true,
        },
    decreases nodes.len(),
{
    if nodes.len() > 0 && nodes.last().id != id {
        lemma_last_index(nodes.drop_last(), id);
    }
}

pub proof fn lemma_arcs_wf(nodes: Seq<NodeView>, edges: Seq<EdgeView>)
    ensures
        (Graph { n: nodes.len() as int, arcs: arcs_of(nodes, edges) }).wf(),
    decreases edges.len(),
{
    if edges.len() > 0 {
        lemma_arcs_wf(nodes, edges.drop_last());
        lemma_last_index(nodes, edges.last().from);
        lemma_last_index(nodes, edges.last().to);
        let before = arcs_of(nodes, edges.drop_last());
        let g = Graph { n: nodes.len() as int, arcs: arcs_of(nodes, edges) };
        let h = Graph { n: nodes.len() as int, arcs: before };
        assert forall|k: int| 0 <= k < g.arcs.len() implies 0 <= (#[trigger] g.arcs[k]).0 < g.n && 0
            <= g.arcs[k].1 < g.n && g.arcs[k].0 != g.arcs[k].1 by {
            if k < before.len() {
                assert(g.arcs[k] == h.arcs[k]);
            }
        }
    }
}

pub proof fn lemma_succs(arcs: Seq<(int, int)>, a: int)
    ensures
        succs(arcs, a).len() <= arcs.len(),
        forall|k: int|
            0 <= k < succs(arcs, a).len() ==> arcs.contains((a, #[trigger] succs(arcs, a)[k])),
        forall|b: int| arcs.contains((a, b)) ==> #[trigger] succs(arcs, a).contains(b),
    decreases arcs.len(),
{
    if arcs.len() > 0 {
        let t = arcs.drop_last();
        lemma_succs(t, a);
        let s = succs(arcs, a);
        assert forall|k: int| 0 <= k < s.len() implies arcs.contains((a, #[trigger] s[k])) by {
            if k < succs(t, a).len() {
                assert(t.contains((a, succs(t, a)[k])));
                let j = choose|j: int| 0 <= j < t.len() && t[j] == (a, s[k]);
                assert(arcs[j] == (a, s[k]));
            } else {
                assert(arcs[arcs.len() - 1] == (a, s[k]));
            }
        }
        assert forall|b: int| arcs.contains((a, b)) implies #[trigger] s.contains(b) by {
            let j = choose|j: int| 0 <= j < arcs.len() && arcs[j] == (a, b);
            if j < t.len() {
                assert(t[j] == (a, b));
                assert(t.contains((a, b)));
                assert(succs(t, a).contains(b));
                let m = choose|m: int| 0 <= m < succs(t, a).len() && succs(t, a)[m] == b;
                assert(s[m] == b);
            } else {
                assert(s[s.len() - 1] == b);
            }
        }
    }
}

pub proof fn lemma_preds(arcs: Seq<(int, int)>, b: int)
    ensures
        preds(arcs, b).len() <= arcs.len(),
        forall|k: int|
            0 <= k < preds(arcs, b).len() ==> arcs.contains((#[trigger] preds(arcs, b)[k], b)),
        forall|a: int| arcs.contains((a, b)) ==> #[trigger] preds(arcs, b).contains(a),
    decreases arcs.len(),
{
    if arcs.len() > 0 {
        let t = arcs.drop_last();
        lemma_preds(t, b);
        let s = preds(arcs, b);
        assert forall|k: int| 0 <= k < s.len() implies arcs.contains((#[trigger] s[k], b)) by {
            if k < preds(t, b).len() {
                assert(t.contains((preds(t, b)[k], b)));
                let j = choose|j: int| 0 <= j < t.len() && t[j] == (s[k], b);
                assert(arcs[j] == (s[k], b));
            } else {
                assert(arcs[arcs.len() - 1] == (s[k], b));
            }
        }
        assert forall|a: int| arcs.contains((a, b)) implies #[trigger] s.contains(a) by {
            let j = choose|j: int| 0 <= j < arcs.len() && arcs[j] == (a, b);
            if j < t.len() {
                assert(t[j] == (a, b));
                assert(t.contains((a, b)));
                assert(preds(t, b).contains(a));
                let m = choose|m: int| 0 <= m < preds(t, b).len() && preds(t, b)[m] == a;
                assert(s[m] == a);
            } else {
                assert(s[s.len() - 1] == a);
            }
        }
    }
}

/// The last index at which a box with the id stands.
fn find_last(nodes: &Vec<Node>, id: &str) -> (r: Option<usize>)
    ensures
        match r {
            Some(i) => last_index(node_views(nodes@), id@) == Some(i as int) && i
                < nodes@.len(),
            None => last_index(node_views(nodes@), id@) is None,
        },
{
    let ghost all = node_views(nodes@);
    let mut i: usize = nodes.len();
    proof {
        assert(all.take(all.len() as int) =~= all);
    }
    while i > 0
        invariant
            i <= nodes@.len(),
            all == node_views(nodes@),
            last_index(all, id@) == last_index(all.take(i as int), id@),
        decreases i,
    {
        proof {
            assert(all.take(i as int).drop_last() =~= all.take(i - 1));
        }
        i -= 1;
        if same_str(nodes[i].id.as_str(), id) {
            return Some(i);
        }
    }
    None
}

/// The successors and predecessors of every box.
pub(crate) fn links(nodes: &Vec<Node>, edges: &Vec<Edge>) -> (r: (Vec<Vec<usize>>, Vec<Vec<usize>>))
    ensures
        ({
            let g = Graph {
                n: nodes@.len() as int,
                arcs: arcs_of(
                    node_views(nodes@),
                    edge_views(edges@),
                ),
            };
            &&& g.wf()
            &&& g.arcs.len() <= edges@.len()
            &&& lists_succs(g, r.0@)
            &&& lists_preds(g, r.1@)
        }),
{
    let n: usize = nodes.len();
    let ghost ns = node_views(nodes@);
    let ghost es = edge_views(edges@);
    let mut out: Vec<Vec<usize>> = Vec::new();
    let mut back: Vec<Vec<usize>> = Vec::new();
    while out.len() < n
        invariant
            out@.len() <= n,
            back@.len() == out@.len(),
            forall|a: int| 0 <= a < out@.len() ==> (#[trigger] out@[a])@.len() == 0,
            forall|a: int| 0 <= a < out@.len() ==> (#[trigger] back@[a])@.len() == 0,
        decreases n - out@.len(),
    {
        out.push(Vec::new());
        back.push(Vec::new());
    }
    let mut i: usize = 0;
    proof {
        let g = Graph { n: n as int, arcs: arcs_of(ns, es.take(0)) };
        assert forall|a: int| 0 <= a < g.n implies ints((#[trigger] out@[a])@) == succs(
            g.arcs,
            a,
        ) by {
            assert(ints(out@[a]@) =~= succs(g.arcs, a));
        }
        assert forall|a: int| 0 <= a < g.n implies ints((#[trigger] back@[a])@) == preds(
            g.arcs,
            a,
        ) by {
            assert(ints(back@[a]@) =~= preds(g.arcs, a));
        }
    }
    while i < edges.len()
        invariant
            i <= edges@.len(),
            n == nodes@.len(),
            ns == node_views(nodes@),
            es == edge_views(edges@),
            arcs_of(ns, es.take(i as int)).len() <= i,
            lists_succs(Graph { n: n as int, arcs: arcs_of(ns, es.take(i as int)) }, out@),
            lists_preds(Graph { n: n as int, arcs: arcs_of(ns, es.take(i as int)) }, back@),
        decreases edges@.len() - i,
    {
        let ghost before = arcs_of(ns, es.take(i as int));
        let ghost (out0, back0) = (out@, back@);
        let from: Option<usize> = find_last(nodes, edges[i].from.as_str());
        let to: Option<usize> = find_last(nodes, edges[i].to.as_str());
        proof {
            assert(es.take(i + 1).drop_last() =~= es.take(i as int));
            assert(es.take(i + 1).last() == edges@[i as int]@);
        }
        i += 1;
        let ghost g = Graph { n: n as int, arcs: arcs_of(ns, es.take(i as int)) };
        match from {
            Some(a) => {
                match to {
                    Some(b) => {
                        if a != b {
                            out[a].push(b);
                            back[b].push(a);
                            proof {
                                assert(g.arcs == before.push((a as int, b as int)));
                                assert(g.arcs.drop_last() =~= before);
                                assert forall|c: int| 0 <= c < g.n implies ints(
                                    (#[trigger] out@[c])@,
                                ) == succs(g.arcs, c) by {
                                    if c == a {
                                        assert(ints(out@[c]@) =~= ints(out0[c]@).push(b as int));
                                    } else {
                                        assert(out@[c] == out0[c]);
                                    }
                                }
                                assert forall|c: int| 0 <= c < g.n implies ints(
                                    (#[trigger] back@[c])@,
                                ) == preds(g.arcs, c) by {
                                    if c == b {
                                        assert(ints(back@[c]@) =~= ints(back0[c]@).push(a as int));
                                    } else {
                                        assert(back@[c] == back0[c]);
                                    }
                                }
                            }
                        }
                    },
                    None => {},
                }
            },
            None => {},
        }
    }
    proof {
        assert(es.take(es.len() as int) =~= es);
        lemma_arcs_wf(ns, es);
    }
    (out, back)
}


/// Whether every entry is an index below `n`, other than `a`.
spec fn others(bs: Seq<int>, n: int, a: int) -> bool {
    forall|k: int| 0 <= k < bs.len() ==> 0 <= #[trigger] bs[k] < n && bs[k] != a
}

proof fn lemma_succs_others(g: Graph, a: int)
    requires
        g.wf(),
    ensures
        others(succs(g.arcs, a), g.n, a),
{
    lemma_succs(g.arcs, a);
    let bs = succs(g.arcs, a);
    assert forall|k: int| 0 <= k < bs.len() implies 0 <= #[trigger] bs[k] < g.n && bs[k] != a by {
        assert(g.arcs.contains((a, bs[k])));
        let j = choose|j: int| 0 <= j < g.arcs.len() && g.arcs[j] == (a, bs[k]);
        assert(g.arcs[j].1 == bs[k]);
    }
}

proof fn lemma_relax_list(rank: Seq<int>, a: int, bs: Seq<int>)
    requires
        0 <= a < rank.len(),
        others(bs, rank.len() as int, a),
    ensures
        relax_list(rank, a, bs).len() == rank.len(),
        relax_list(rank, a, bs)[a] == rank[a],
        forall|i: int|
            0 <= i < rank.len() ==> rank[i] <= #[trigger] relax_list(rank, a, bs)[i],
        forall|i: int|
            0 <= i < rank.len() ==> #[trigger] relax_list(rank, a, bs)[i] <= rank[a] + 1
                || relax_list(rank, a, bs)[i] == rank[i],
        forall|i: int|
            0 <= i < rank.len() && !bs.contains(i) ==> #[trigger] relax_list(rank, a, bs)[i]
                == rank[i],
        forall|k: int|
            0 <= k < bs.len() ==> relax_list(rank, a, bs)[#[trigger] bs[k]] >= rank[a] + 1,
    decreases bs.len(),
{
    if bs.len() > 0 {
        let t = bs.drop_last();
        assert(others(t, rank.len() as int, a)) by {
            assert forall|k: int| 0 <= k < t.len() implies 0 <= #[trigger] t[k] < rank.len() && t[k]
                != a by {
                assert(t[k] == bs[k]);
            }
        }
        lemma_relax_list(rank, a, t);
        let b = bs.last();
        assert(bs[bs.len() - 1] == b);
        let r = relax_list(rank, a, bs);
        assert forall|i: int| 0 <= i < rank.len() && !bs.contains(i) implies #[trigger] r[i]
            == rank[i] by {
            if t.contains(i) {
                let k = choose|k: int| 0 <= k < t.len() && t[k] == i;
                assert(bs[k] == i);
            }
            assert(bs.contains(b));
        }
        assert forall|k: int| 0 <= k < bs.len() implies r[#[trigger] bs[k]] >= rank[a] + 1 by {
            if k < t.len() {
                assert(t[k] == bs[k]);
            }
        }
    }
}

/// Whether no rank is above `m`.
pub open spec fn at_most(rank: Seq<int>, m: int) -> bool {
    forall|i: int| 0 <= i < rank.len() ==> #[trigger] rank[i] <= m
}

pub proof fn lemma_relax_upto(g: Graph, rank: Seq<int>, c: int)
    requires
        g.wf(),
        0 <= c <= g.n,
        rank.len() == g.n,
    ensures
        g.relax_upto(rank, c).len() == g.n,
        forall|i: int| 0 <= i < g.n ==> rank[i] <= #[trigger] g.relax_upto(rank, c)[i],
        forall|m: int|
            #[trigger] at_most(rank, m) ==> at_most(g.relax_upto(rank, c), m + c),
    decreases c,
{
    if c > 0 {
        lemma_relax_upto(g, rank, c - 1);
        let before = g.relax_upto(rank, c - 1);
        lemma_succs_others(g, c - 1);
        lemma_relax_list(before, c - 1, succs(g.arcs, c - 1));
        assert forall|m: int| #[trigger] at_most(rank, m) implies at_most(
            g.relax_upto(rank, c),
            m + c,
        ) by {
            assert(at_most(before, m + c - 1));
            assert(before[c - 1] <= m + c - 1);
        }
    }
}

/// Later steps of a round never lower a rank.
proof fn lemma_relax_grows(g: Graph, rank: Seq<int>, c: int, d: int, i: int)
    requires
        g.wf(),
        0 <= c <= d <= g.n,
        rank.len() == g.n,
        0 <= i < g.n,
    ensures
        g.relax_upto(rank, c)[i] <= g.relax_upto(rank, d)[i],
    decreases d - c,
{
    if c < d {
        lemma_relax_grows(g, rank, c, d - 1, i);
        lemma_relax_upto(g, rank, d - 1);
        lemma_succs_others(g, d - 1);
        lemma_relax_list(g.relax_upto(rank, d - 1), d - 1, succs(g.arcs, d - 1));
    }
}

/// A round moves a box past where its predecessor was when its turn came.
proof fn lemma_relax_reaches(g: Graph, rank: Seq<int>, a: int, b: int)
    requires
        g.wf(),
        rank.len() == g.n,
        g.arcs.contains((a, b)),
    ensures
        0 <= a < g.n,
        0 <= b < g.n,
        g.relax_upto(rank, g.n)[b] >= g.relax_upto(rank, a)[a] + 1,
{
    let k = choose|k: int| 0 <= k < g.arcs.len() && g.arcs[k] == (a, b);
    assert(g.arcs[k].0 == a);
    lemma_succs(g.arcs, a);
    lemma_succs_others(g, a);
    lemma_relax_upto(g, rank, a);
    let before = g.relax_upto(rank, a);
    let bs = succs(g.arcs, a);
    lemma_relax_list(before, a, bs);
    assert(bs.contains(b));
    let j = choose|j: int| 0 <= j < bs.len() && bs[j] == b;
    assert(relax_list(before, a, bs)[bs[j]] >= before[a] + 1);
    lemma_relax_grows(g, rank, a + 1, g.n, b);
}

/// A round lifts a box no further than past its predecessors.
proof fn lemma_relax_bound(g: Graph, rank: Seq<int>, c: int, i: int, v: int)
    requires
        g.wf(),
        rank.len() == g.n,
        0 <= c <= g.n,
        0 <= i < g.n,
        rank[i] <= v,
        forall|a: int|
            #[trigger] g.arcs.contains((a, i)) ==> g.relax_upto(rank, g.n)[a] + 1 <= v,
    ensures
        g.relax_upto(rank, c)[i] <= v,
    decreases c,
{
    if c > 0 {
        lemma_relax_bound(g, rank, c - 1, i, v);
        lemma_relax_upto(g, rank, c - 1);
        lemma_succs_others(g, c - 1);
        lemma_succs(g.arcs, c - 1);
        let before = g.relax_upto(rank, c - 1);
        let bs = succs(g.arcs, c - 1);
        lemma_relax_list(before, c - 1, bs);
        if bs.contains(i) {
            let k = choose|k: int| 0 <= k < bs.len() && bs[k] == i;
            assert(g.arcs.contains((c - 1, bs[k])));
            lemma_relax_grows(g, rank, c - 1, g.n, c - 1);
        }
    }
}

pub proof fn lemma_relaxed(g: Graph, k: int)
    requires
        g.wf(),
        0 <= k,
    ensures
        g.relaxed(k).len() == g.n,
        forall|i: int| 0 <= i < g.n ==> 0 <= #[trigger] g.relaxed(k)[i] <= k * g.n,
    decreases k,
{
    if k > 0 {
        lemma_relaxed(g, k - 1);
        lemma_relax_upto(g, g.relaxed(k - 1), g.n);
        assert((k - 1) * g.n + g.n == k * g.n) by (nonlinear_arith);
        let m = (k - 1) * g.n;
        assert(at_most(g.relaxed(k - 1), m));
    } else {
        assert(0 * g.n == 0) by (nonlinear_arith);
    }
}

/// Once a round changes nothing, no later round does.
proof fn lemma_settled(g: Graph, k: int, m: int)
    requires
        g.wf(),
        0 <= k <= m,
        g.relaxed(k + 1) == g.relaxed(k),
    ensures
        g.relaxed(m) == g.relaxed(k),
    decreases m - k,
{
    if k < m {
        lemma_settled(g, k, m - 1);
        assert(g.relaxed(m) == g.relax_upto(g.relaxed(m - 1), g.n));
    }
}

/// Whether the numbers order the boxes along every connector: what a graph
/// without cycles has.
pub open spec fn topological(g: Graph, t: Seq<int>) -> bool {
    &&& t.len() == g.n
    &&& forall|i: int| 0 <= i < g.n ==> 0 <= #[trigger] t[i] < g.n
    &&& forall|k: int|
        0 <= k < g.arcs.len() ==> t[(#[trigger] g.arcs[k]).0] < t[g.arcs[k].1]
}

/// Boxes early in a topological order have their rank after few rounds.
proof fn lemma_settles(g: Graph, t: Seq<int>, k: int, m: int, i: int)
    requires
        g.wf(),
        topological(g, t),
        0 <= k <= m,
        0 <= i < g.n,
        t[i] < k,
    ensures
        g.relaxed(m)[i] == g.relaxed(k)[i],
    decreases k, m,
{
    if k < m {
        lemma_settles(g, t, k, m - 1, i);
        let rank = g.relaxed(m - 1);
        lemma_relaxed(g, m - 1);
        lemma_relax_upto(g, rank, g.n);
        let v = rank[i];
        assert forall|a: int| #[trigger] g.arcs.contains((a, i)) implies g.relax_upto(rank, g.n)[a]
            + 1 <= v by {
            let j = choose|j: int| 0 <= j < g.arcs.len() && g.arcs[j] == (a, i);
            assert(t[g.arcs[j].0] < t[g.arcs[j].1]);
            lemma_settles(g, t, k - 1, m, a);
            lemma_settles(g, t, k - 1, m - 1, a);
            lemma_settles(g, t, k - 1, m - 2, a);
            let earlier = g.relaxed(m - 2);
            lemma_relaxed(g, m - 2);
            lemma_relax_reaches(g, earlier, a, i);
            lemma_relax_upto(g, earlier, a);
        }
        lemma_relax_bound(g, rank, g.n, i, v);
    }
}

/// In a graph without cycles every connector leads to a higher rank.
pub proof fn lemma_ranks_follow_arcs(g: Graph, t: Seq<int>, a: int, b: int)
    requires
        g.wf(),
        topological(g, t),
        g.arcs.contains((a, b)),
    ensures
        g.ranks()[a] < g.ranks()[b],
{
    let j = choose|j: int| 0 <= j < g.arcs.len() && g.arcs[j] == (a, b);
    assert(t[g.arcs[j].0] < t[g.arcs[j].1]);
    let n = g.n;
    let rank = g.relaxed(n - 1);
    lemma_relaxed(g, n - 1);
    lemma_relax_reaches(g, rank, a, b);
    lemma_settles(g, t, n - 1, n, a);
    lemma_relax_upto(g, rank, a);
}

/// Ranks as integers.
pub open spec fn rank_ints(v: Seq<u128>) -> Seq<int> {
    Seq::new(v.len(), |i: int| v[i] as int)
}

/// Moves every box of a list past `a`.
fn relax(rank: &mut Vec<u128>, a: usize, bs: &Vec<usize>) -> (changed: bool)
    requires
        a < old(rank)@.len(),
        others(ints(bs@), old(rank)@.len() as int, a as int),
        old(rank)@[a as int] < u128::MAX,
    ensures
        rank_ints(final(rank)@) == relax_list(rank_ints(old(rank)@), a as int, ints(bs@)),
        !changed ==> final(rank)@ == old(rank)@,
{
    let ghost before = rank_ints(rank@);
    let ghost all = ints(bs@);
    let mut changed: bool = false;
    let mut k: usize = 0;
    proof {
        assert(all.take(0) =~= Seq::empty());
    }
    while k < bs.len()
        invariant
            k <= bs@.len(),
            all == ints(bs@),
            before == rank_ints(old(rank)@),
            a < rank@.len() == before.len(),
            others(all, before.len() as int, a as int),
            rank@[a as int] == old(rank)@[a as int],
            rank@[a as int] < u128::MAX,
            rank_ints(rank@) == relax_list(before, a as int, all.take(k as int)),
            !changed ==> rank@ == old(rank)@,
        decreases bs@.len() - k,
    {
        let ghost now = rank_ints(rank@);
        let b: usize = bs[k];
        proof {
            assert(all[k as int] == b);
            assert(all.take(k + 1).drop_last() =~= all.take(k as int));
        }
        let next: u128 = rank[a] + 1;
        if rank[b] < next {
            rank.set(b, next);
            changed = true;
            proof {
                assert(rank_ints(rank@) =~= now.update(b as int, next as int));
            }
        }
        k += 1;
    }
    proof {
        assert(all.take(all.len() as int) =~= all);
    }
    changed
}

/// The rank of every box.
pub(crate) fn find_ranks(out: &Vec<Vec<usize>>, Ghost(g): Ghost<Graph>) -> (r: Vec<u128>)
    requires
        g.wf(),
        lists_succs(g, out@),
    ensures
        rank_ints(r@) == g.ranks(),
{
    let n: usize = out.len();
    let mut rank: Vec<u128> = Vec::new();
    while rank.len() < n
        invariant
            rank@.len() <= n,
            forall|i: int| 0 <= i < rank@.len() ==> #[trigger] rank@[i] == 0,
        decreases n - rank@.len(),
    {
        rank.push(0);
    }
    let mut round: usize = 0;
    let mut done: bool = false;
    proof {
        assert(rank_ints(rank@) =~= g.relaxed(0));
    }
    while round < n && !done
        invariant
            round <= n == g.n,
            n == out@.len(),
            g.wf(),
            lists_succs(g, out@),
            rank_ints(rank@) == g.relaxed(round as int),
            done ==> rank_ints(rank@) == g.ranks(),
        decreases n - round,
    {
        let ghost start = g.relaxed(round as int);
        let mut changed: bool = false;
        let mut a: usize = 0;
        proof {
            lemma_relaxed(g, round as int);
        }
        while a < n
            invariant
                a <= n == g.n,
                n == out@.len(),
                round < n,
                g.wf(),
                lists_succs(g, out@),
                start == g.relaxed(round as int),
                rank_ints(rank@) == g.relax_upto(start, a as int),
                !changed ==> rank_ints(rank@) == start,
            decreases n - a,
        {
            proof {
                lemma_relaxed(g, round as int);
                lemma_relax_upto(g, start, a as int);
                lemma_succs_others(g, a as int);
                assert(ints(out@[a as int]@) == succs(g.arcs, a as int));
                let m = round * n;
                assert(at_most(start, m));
                assert(g.relax_upto(start, a as int)[a as int] <= m + a);
                assert(round * n + n <= u64::MAX * u64::MAX) by (nonlinear_arith)
                    requires
                        round < n,
                        n <= u64::MAX,
                ;
                assert(rank_ints(rank@)[a as int] == rank@[a as int]);
            }
            let moved: bool = relax(&mut rank, a, &out[a]);
            if moved {
                changed = true;
            }
            a += 1;
        }
        round += 1;
        if !changed {
            done = true;
            proof {
                lemma_settled(g, round - 1, g.n);
            }
        }
    }
    rank
}

/// Whether boxes that a connector joins have the same label.
spec fn label_kept(g: Graph, label: Seq<Option<usize>>) -> bool {
    forall|k: int|
        0 <= k < g.arcs.len() ==> label[(#[trigger] g.arcs[k]).0] == label[g.arcs[k].1]
}

proof fn lemma_same_label(g: Graph, label: Seq<Option<usize>>, path: Seq<int>)
    requires
        label_kept(g, label),
        g.is_path(path),
    ensures
        label[path.first()] == label[path.last()],
    decreases path.len(),
{
    if path.len() > 1 {
        let t = path.drop_last();
        assert forall|k: int| 0 <= k < t.len() - 1 implies #[trigger] g.step(t, k) by {
            assert(g.step(path, k));
        }
        lemma_same_label(g, label, t);
        let n = path.len();
        assert(g.step(path, n - 2));
        let (m, b) = (path[n - 2], path[n - 1]);
        let j = choose|j: int|
            0 <= j < g.arcs.len() && (#[trigger] g.arcs[j] == (m, b) || g.arcs[j] == (b, m));
        assert(label[g.arcs[j].0] == label[g.arcs[j].1]);
    }
}

proof fn lemma_reach_on(g: Graph, a: int, m: int, b: int)
    requires
        g.connected(a, m),
        g.linked(m, b),
    ensures
        g.connected(a, b),
{
    let path = choose|path: Seq<int>| #[trigger]
        g.is_path(path) && path.first() == a && path.last() == m;
    let longer = path.push(b);
    assert forall|k: int| 0 <= k < longer.len() - 1 implies #[trigger] g.step(longer, k) by {
        if k < path.len() - 1 {
            assert(g.step(path, k));
        }
    }
    assert(g.is_path(longer));
}

proof fn lemma_first_connected(g: Graph, i: int, j: int, l: int)
    requires
        j <= l <= i,
        g.connected(l, i),
        forall|m: int| j <= m < l ==> !g.connected(m, i),
    ensures
        g.first_connected(i, j) == l,
    decreases l - j,
{
    if j < l {
        lemma_first_connected(g, i, j + 1, l);
    }
}

/// Labels that are constant along connectors, each the label of a box
/// connected to it and no later than it, are the leaders.
proof fn lemma_labels_lead(g: Graph, label: Seq<Option<usize>>, i: int)
    requires
        label_kept(g, label),
        0 <= i < g.n == label.len(),
        forall|j: int|
            0 <= j < g.n ==> (#[trigger] label[j]) is Some && label[j]->0 <= j && g.connected(
                label[j]->0 as int,
                j,
            ),
    ensures
        g.leader(i) == label[i]->0,
{
    let l = label[i]->0 as int;
    assert forall|m: int| 0 <= m < l implies !g.connected(m, i) by {
        if g.connected(m, i) {
            let path = choose|path: Seq<int>| #[trigger]
                g.is_path(path) && path.first() == m && path.last() == i;
            lemma_same_label(g, label, path);
            assert(label[m]->0 <= m);
        }
    }
    lemma_first_connected(g, i, 0, l);
}

/// How many boxes have no label yet.
spec fn unlabelled(label: Seq<Option<usize>>) -> nat
    decreases label.len(),
{
    if label.len() == 0 {
        0
    } else {
        unlabelled(label.drop_last()) + (if label.last() is None {
            1nat
        } else {
            0
        })
    }
}

proof fn lemma_unlabelled(label: Seq<Option<usize>>, i: int, l: usize)
    requires
        0 <= i < label.len(),
        label[i] is None,
    ensures
        unlabelled(label.update(i, Some(l))) + 1 == unlabelled(label),
    decreases label.len(),
{
    let after = label.update(i, Some(l));
    if i == label.len() - 1 {
        assert(after.drop_last() =~= label.drop_last());
    } else {
        assert(after.drop_last() =~= label.drop_last().update(i, Some(l)));
        lemma_unlabelled(label.drop_last(), i, l);
    }
}

/// What holds of the labels while those of `start` are being set: labels
/// set before are closed along connectors, the new ones are closed but for
/// what is still to visit.
spec fn spreading(
    g: Graph,
    label: Seq<Option<usize>>,
    stack: Seq<usize>,
    start: int,
) -> bool {
    &&& label.len() == g.n
    &&& forall|j: int|
        0 <= j < g.n && (#[trigger] label[j]) is Some ==> label[j]->0 <= j && label[j]->0 <= start
            && g.connected(label[j]->0 as int, j)
    &&& forall|k: int| 0 <= k < stack.len() ==> 0 <= #[trigger] stack[k] < g.n && g.connected(
        start,
        stack[k] as int,
    )
    &&& forall|j: int| 0 <= j < start ==> (#[trigger] label[j]) is Some
    &&& forall|k: int|
        0 <= k < g.arcs.len() && label[(#[trigger] g.arcs[k]).0] is Some ==> label[g.arcs[k].1]
            == label[g.arcs[k].0] || (label[g.arcs[k].0] == Some(start as usize)
            && label[g.arcs[k].1] is None && stack.contains(g.arcs[k].1 as usize))
    &&& forall|k: int|
        0 <= k < g.arcs.len() && label[(#[trigger] g.arcs[k]).1] is Some ==> label[g.arcs[k].0]
            == label[g.arcs[k].1] || (label[g.arcs[k].1] == Some(start as usize)
            && label[g.arcs[k].0] is None && stack.contains(g.arcs[k].0 as usize))
}

/// Pushes every entry of a list.
fn push_all(stack: &mut Vec<usize>, v: &Vec<usize>)
    ensures
        final(stack)@ == old(stack)@ + v@,
{
    let mut k: usize = 0;
    proof {
        assert(stack@ =~= old(stack)@ + v@.take(0));
    }
    while k < v.len()
        invariant
            k <= v@.len(),
            stack@ == old(stack)@ + v@.take(k as int),
        decreases v@.len() - k,
    {
        stack.push(v[k]);
        k += 1;
        proof {
            assert(stack@ =~= old(stack)@ + v@.take(k as int));
        }
    }
    proof {
        assert(v@.take(v@.len() as int) =~= v@);
    }
}

proof fn lemma_neighbours(g: Graph, i: int, out: Seq<usize>, back: Seq<usize>)
    requires
        g.wf(),
        g.n <= usize::MAX,
        ints(out) == succs(g.arcs, i),
        ints(back) == preds(g.arcs, i),
    ensures
        forall|k: int| 0 <= k < (out + back).len() ==> 0 <= #[trigger] (out + back)[k] < g.n
            && g.linked(i, (out + back)[k] as int),
        forall|k: int|
            0 <= k < g.arcs.len() && (#[trigger] g.arcs[k]).0 == i ==> (out + back).contains(
                g.arcs[k].1 as usize,
            ),
        forall|k: int|
            0 <= k < g.arcs.len() && (#[trigger] g.arcs[k]).1 == i ==> (out + back).contains(
                g.arcs[k].0 as usize,
            ),
{
    lemma_succs(g.arcs, i);
    lemma_preds(g.arcs, i);
    let all = out + back;
    assert forall|k: int| 0 <= k < all.len() implies 0 <= #[trigger] all[k] < g.n && g.linked(
        i,
        all[k] as int,
    ) by {
        if k < out.len() {
            assert(all[k] == succs(g.arcs, i)[k]);
            assert(g.arcs.contains((i, succs(g.arcs, i)[k])));
            let j = choose|j: int| 0 <= j < g.arcs.len() && g.arcs[j] == (i, all[k] as int);
            assert(g.arcs[j].1 == all[k]);
        } else {
            let m = k - out.len();
            assert(ints(back)[m] == back[m]);
            assert(all[k] == preds(g.arcs, i)[m]);
            assert(g.arcs.contains((preds(g.arcs, i)[m], i)));
            let j = choose|j: int| 0 <= j < g.arcs.len() && g.arcs[j] == (all[k] as int, i);
            assert(g.arcs[j].0 == all[k]);
        }
    }
    assert forall|k: int|
        0 <= k < g.arcs.len() && (#[trigger] g.arcs[k]).0 == i implies all.contains(
        g.arcs[k].1 as usize,
    ) by {
        let b = g.arcs[k].1;
        assert(g.arcs[k] == (i, b));
        assert(g.arcs.contains((i, b)));
        assert(succs(g.arcs, i).contains(b));
        let m = choose|m: int| 0 <= m < succs(g.arcs, i).len() && succs(g.arcs, i)[m] == b;
        assert(ints(out)[m] == b);
        assert(all[m] == b as usize);
    }
    assert forall|k: int|
        0 <= k < g.arcs.len() && (#[trigger] g.arcs[k]).1 == i implies all.contains(
        g.arcs[k].0 as usize,
    ) by {
        let a = g.arcs[k].0;
        assert(g.arcs[k] == (a, i));
        assert(g.arcs.contains((a, i)));
        assert(preds(g.arcs, i).contains(a));
        let m = choose|m: int| 0 <= m < preds(g.arcs, i).len() && preds(g.arcs, i)[m] == a;
        assert(ints(back)[m] == a);
        assert(all[out.len() + m] == a as usize);
    }
}

/// Labelling one box and taking in its neighbours keeps the invariant.
proof fn lemma_spread_step(
    g: Graph,
    label: Seq<Option<usize>>,
    stack: Seq<usize>,
    start: usize,
    i: usize,
    more: Seq<usize>,
)
    requires
        g.wf(),
        g.n <= usize::MAX,
        start < g.n,
        spreading(g, label, stack.push(i), start as int),
        label[i as int] is None,
        forall|k: int| 0 <= k < more.len() ==> 0 <= #[trigger] more[k] < g.n && g.linked(
            i as int,
            more[k] as int,
        ),
        forall|k: int|
            0 <= k < g.arcs.len() && (#[trigger] g.arcs[k]).0 == i ==> more.contains(
                g.arcs[k].1 as usize,
            ),
        forall|k: int|
            0 <= k < g.arcs.len() && (#[trigger] g.arcs[k]).1 == i ==> more.contains(
                g.arcs[k].0 as usize,
            ),
    ensures
        spreading(g, label.update(i as int, Some(start)), stack + more, start as int),
{
    let full = stack.push(i);
    let after = label.update(i as int, Some(start));
    let next = stack + more;
    assert(full[full.len() - 1] == i);
    assert(g.connected(start as int, i as int));
    assert(i >= start) by {
        if i < start {
            assert(label[i as int] is Some);
        }
    }
    assert forall|k: int| 0 <= k < next.len() implies 0 <= #[trigger] next[k] < g.n && g.connected(
        start as int,
        next[k] as int,
    ) by {
        if k < stack.len() {
            assert(full[k] == next[k]);
        } else {
            assert(more[k - stack.len()] == next[k]);
            lemma_reach_on(g, start as int, i as int, next[k] as int);
        }
    }
    assert forall|x: usize| full.contains(x) && x != i implies #[trigger] next.contains(x) by {
        let k = choose|k: int| 0 <= k < full.len() && full[k] == x;
        assert(next[k] == x);
    }
    assert forall|x: usize| more.contains(x) implies #[trigger] next.contains(x) by {
        let k = choose|k: int| 0 <= k < more.len() && more[k] == x;
        assert(next[stack.len() + k] == x);
    }
    assert forall|k: int|
        0 <= k < g.arcs.len() && after[(#[trigger] g.arcs[k]).0] is Some implies after[g.arcs[k].1]
        == after[g.arcs[k].0] || (after[g.arcs[k].0] == Some(start) && after[g.arcs[k].1] is None
        && next.contains(g.arcs[k].1 as usize)) by {
        let (a, b) = g.arcs[k];
        if a == i {
            assert(more.contains(b as usize));
            if after[b] is Some {
                assert(label[b] is Some);
                assert(label[a] == label[b] || label[b] == Some(start));
            }
        }
    }
    assert forall|k: int|
        0 <= k < g.arcs.len() && after[(#[trigger] g.arcs[k]).1] is Some implies after[g.arcs[k].0]
        == after[g.arcs[k].1] || (after[g.arcs[k].1] == Some(start) && after[g.arcs[k].0] is None
        && next.contains(g.arcs[k].0 as usize)) by {
        let (a, b) = g.arcs[k];
        if b == i {
            assert(more.contains(a as usize));
            if after[a] is Some {
                assert(label[a] is Some);
                assert(label[a] == label[b] || label[a] == Some(start));
            }
        }
    }
}

/// Labels every box connected to `start` with it.
fn spread(
    out: &Vec<Vec<usize>>,
    back: &Vec<Vec<usize>>,
    label: &mut Vec<Option<usize>>,
    start: usize,
    Ghost(g): Ghost<Graph>,
)
    requires
        g.wf(),
        lists_succs(g, out@),
        lists_preds(g, back@),
        start < g.n,
        old(label)@[start as int] is None,
        spreading(g, old(label)@, Seq::empty(), start as int),
    ensures
        spreading(g, final(label)@, Seq::empty(), start as int),
        final(label)@[start as int] == Some(start),
{
    let n: usize = out.len();
    let mut stack: Vec<usize> = Vec::new();
    stack.push(start);
    proof {
        assert(g.is_path(seq![start as int]));
        assert(stack@[0] == start);
        assert(g.connected(start as int, start as int));
        let none = Seq::<usize>::empty();
        assert(spreading(g, label@, stack@, start as int)) by {
            assert forall|k: int| 0 <= k < stack@.len() implies 0 <= #[trigger] stack@[k] < g.n
                && g.connected(start as int, stack@[k] as int) by {
                assert(stack@[k] == start);
            }
            assert(forall|x: usize| !none.contains(x));
        }
    }
    while stack.len() > 0
        invariant
            n == g.n,
            start < n,
            g.wf(),
            lists_succs(g, out@),
            lists_preds(g, back@),
            spreading(g, label@, stack@, start as int),
            label@[start as int] == Some(start) || (label@[start as int] is None
                && stack@.contains(start)),
        decreases unlabelled(label@), stack@.len(),
    {
        let ghost full = stack@;
        let i: usize = match stack.pop() {
            Some(i) => i,
            None => start,
        };
        proof {
            assert(full == stack@.push(i));
            assert(full[full.len() - 1] == i);
        }
        if label[i].is_some() {
            proof {
                assert forall|x: usize| full.contains(x) && x != i implies #[trigger] stack@.contains(
                    x,
                ) by {
                    let k = choose|k: int| 0 <= k < full.len() && full[k] == x;
                    assert(stack@[k] == x);
                }
                assert forall|k: int| 0 <= k < stack@.len() implies 0 <= #[trigger] stack@[k] < g.n
                    && g.connected(start as int, stack@[k] as int) by {
                    assert(full[k] == stack@[k]);
                }
            }
            continue;
        }
        let ghost rest = stack@;
        let ghost before = label@;
        label.set(i, Some(start));
        push_all(&mut stack, &out[i]);
        push_all(&mut stack, &back[i]);
        proof {
            let more = out@[i as int]@ + back@[i as int]@;
            assert(stack@ =~= rest + more);
            lemma_neighbours(g, i as int, out@[i as int]@, back@[i as int]@);
            lemma_spread_step(g, before, rest, start, i, more);
            lemma_unlabelled(before, i as int, start);
            if i != start && before[start as int] is None {
                let k = choose|k: int| 0 <= k < full.len() && full[k] == start;
                assert(stack@[k] == start);
            }
        }
    }
    proof {
        assert(stack@ =~= Seq::empty());
    }
}

/// The leader of every box.
pub(crate) fn find_leaders(
    out: &Vec<Vec<usize>>,
    back: &Vec<Vec<usize>>,
    Ghost(g): Ghost<Graph>,
) -> (r: Vec<usize>)
    requires
        g.wf(),
        lists_succs(g, out@),
        lists_preds(g, back@),
    ensures
        r@.len() == g.n,
        forall|i: int| 0 <= i < g.n ==> #[trigger] r@[i] == g.leader(i),
        forall|i: int| 0 <= i < g.n ==> #[trigger] r@[i] <= i,
{
    let n: usize = out.len();
    let mut label: Vec<Option<usize>> = Vec::new();
    while label.len() < n
        invariant
            label@.len() <= n,
            forall|i: int| 0 <= i < label@.len() ==> (#[trigger] label@[i]) is None,
        decreases n - label@.len(),
    {
        label.push(None);
    }
    let mut start: usize = 0;
    while start < n
        invariant
            start <= n == g.n,
            n == out@.len(),
            g.wf(),
            lists_succs(g, out@),
            lists_preds(g, back@),
            spreading(g, label@, Seq::empty(), start as int),
        decreases n - start,
    {
        let ghost none = Seq::<usize>::empty();
        proof {
            assert(forall|x: usize| !none.contains(x));
        }
        if label[start].is_none() {
            spread(out, back, &mut label, start, Ghost(g));
        }
        start += 1;
        proof {
            assert(spreading(g, label@, none, start as int));
        }
    }
    proof {
        let none = Seq::<usize>::empty();
        assert(forall|x: usize| !none.contains(x));
        assert forall|k: int| 0 <= k < g.arcs.len() implies label@[(#[trigger] g.arcs[k]).0]
            == label@[g.arcs[k].1] by {
            assert(label@[g.arcs[k].0] is Some);
        }
        assert forall|i: int| 0 <= i < g.n implies g.leader(i) == (#[trigger] label@[i])->0 by {
            lemma_labels_lead(g, label@, i);
        }
    }
    let mut r: Vec<usize> = Vec::new();
    while r.len() < n
        invariant
            r@.len() <= n == g.n,
            label@.len() == n,
            forall|i: int|
                0 <= i < n ==> (#[trigger] label@[i]) is Some && label@[i]->0 <= i && g.leader(i)
                    == label@[i]->0,
            forall|i: int| 0 <= i < r@.len() ==> #[trigger] r@[i] == g.leader(i) && r@[i] <= i,
        decreases n - r@.len(),
    {
        let i: usize = r.len();
        let l: usize = match label[i] {
            Some(l) => l,
            None => i,
        };
        proof {
            assert(label@[i as int] is Some);
        }
        r.push(l);
    }
    r
}

} // verus!

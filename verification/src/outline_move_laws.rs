//! What a move makes of an outline: the moved node is read back as a child of
//! the parent it was moved to, as deep as a child of it is, and at the place
//! among its other children that was asked for.

use vstd::prelude::*;

use crate::mind_app::MindView;
use crate::mindmap::{other_than, outline, Kind, Tree};
use crate::outline::{
    before_blanks, children_upto, clamp, cut, depth_rank, end_line, fence_after, is_blank, item_at,
    item_lines, item_of, item_ranks, landing, lemma_children, lemma_item_lines,
    lemma_nearest_shallower, list_item_of, moved_doc, next_at_most, next_fence, outline_node,
    parent_index, shifted_block, shifted_line, heading_of, Fence,
};
use crate::outline_laws::{
    lemma_before_blanks, lemma_end_in_doc, lemma_heading_line_reads_back, lemma_item_is_not_blank,
    lemma_item_kind, lemma_line_outside, lemma_list_item_line_reads_back, lemma_leading_space,
    lemma_list_prefix_nonneg, lemma_trim_is, lemma_move_outside_fits, lemma_next_at_most,
    lemma_no_node_in_a_fence, lemma_outline_wf, lemma_shifted_line_keeps_text, within,
};
use crate::text::{leading_space, trim_start};

verus! {

/// Whether a line of a document is read as an item.
pub open spec fn is_item(doc: Seq<Seq<char>>, l: int) -> bool {
    0 <= l < doc.len() && item_of(doc[l]) is Some && fence_after(doc.take(l)) is None
}

/// How deep a line sorts as an item.
pub open spec fn rank_at(doc: Seq<Seq<char>>, l: int) -> int {
    depth_rank(item_of(doc[l])->0.kind, item_of(doc[l])->0.indent)
}

proof fn lemma_item_lines_are_items(doc: Seq<Seq<char>>, l: int)
    ensures
        item_lines(doc).contains(l) <==> is_item(doc, l),
    decreases doc.len(),
{
    if doc.len() > 0 {
        let before = doc.drop_last();
        lemma_item_lines_are_items(before, l);
        let (old, new) = (item_lines(before), item_lines(doc));
        if l < doc.len() - 1 {
            if l >= 0 {
                assert(before.take(l) =~= doc.take(l));
            }
            if old.contains(l) {
                let k = choose|k: int| 0 <= k < old.len() && old[k] == l;
                assert(new[k] == l);
            }
            if new.contains(l) {
                let k = choose|k: int| 0 <= k < new.len() && new[k] == l;
                assert(k < old.len());
                assert(old[k] == l);
            }
        } else {
            lemma_item_lines(before);
            assert(doc.take(doc.len() - 1) =~= before);
            if is_item(doc, l) {
                assert(new[new.len() - 1] == l);
            }
            if new.contains(l) {
                let k = choose|k: int| 0 <= k < new.len() && new[k] == l;
                if k < old.len() {
                    assert(old[k] == l);
                }
            }
        }
    }
}

/// The node of an item's line, and that its parent is the last shallower item
/// before it.
proof fn lemma_node_at(doc: Seq<Seq<char>>, l: int) -> (id: u64)
    requires
        doc.len() <= u64::MAX,
        is_item(doc, l),
    ensures
        outline(doc).nodes.contains_key(id),
        outline(doc).nodes[id].line == l,
        outline(doc).nodes[id].kind == item_of(doc[l])->0.kind,
        outline(doc).nodes[id].indent == item_of(doc[l])->0.indent,
        outline(doc).nodes[id].text == item_of(doc[l])->0.text,
        item_lines(doc)[id - 1] == l,
        item_ranks(doc)[id - 1] == rank_at(doc, l),
        (forall|m: int| 0 <= m < l && #[trigger] is_item(doc, m) ==> rank_at(doc, m) >= rank_at(
            doc,
            l,
        )) ==> outline(doc).nodes[id].parent is None,
        forall|q: int|
            0 <= q < l && #[trigger] is_item(doc, q) && rank_at(doc, q) < rank_at(doc, l) && (
            forall|m: int|
                q < m < l && #[trigger] is_item(doc, m) ==> rank_at(doc, m) >= rank_at(doc, l)) ==> {
                &&& outline(doc).nodes[id].parent is Some
                &&& outline(doc).nodes.contains_key(outline(doc).nodes[id].parent->0)
                &&& outline(doc).nodes[outline(doc).nodes[id].parent->0].line == q
            },
{
    lemma_item_lines_are_items(doc, l);
    lemma_item_lines(doc);
    lemma_outline_wf(doc);
    let lines = item_lines(doc);
    let ranks = item_ranks(doc);
    let k = choose|k: int| 0 <= k < lines.len() && lines[k] == l;
    let id = (k + 1) as u64;
    let node = outline(doc).nodes[id];
    assert(node == outline_node(doc, k));
    lemma_nearest_shallower(ranks, k, k);
    let p = parent_index(ranks, k);
    if p >= 0 {
        lemma_item_lines_are_items(doc, lines[p]);
        assert(lines.contains(lines[p]));
        assert(is_item(doc, lines[p]));
        assert(rank_at(doc, lines[p]) == ranks[p]);
        assert(lines[p] < lines[k]);
        assert(outline(doc).nodes[(p + 1) as u64] == outline_node(doc, p));
    }
    assert forall|q: int|
        0 <= q < l && #[trigger] is_item(doc, q) && rank_at(doc, q) < rank_at(doc, l) && (forall|
            m: int,
        |
            q < m < l && #[trigger] is_item(doc, m) ==> rank_at(doc, m) >= rank_at(doc, l)) implies {
        &&& node.parent is Some
        &&& outline(doc).nodes.contains_key(node.parent->0)
        &&& outline(doc).nodes[node.parent->0].line == q
    } by {
        lemma_item_lines_are_items(doc, q);
        let j = choose|j: int| 0 <= j < lines.len() && lines[j] == q;
        assert(ranks[j] == rank_at(doc, q));
        if j >= k {
            if j > k {
                assert(lines[k] < lines[j]);
            }
            assert(false);
        }
        assert(p >= j) by {
            if p < j {
                assert(ranks[j] >= ranks[k]);
            }
        }
        if p > j {
            assert(lines[j] < lines[p]);
            assert(rank_at(doc, lines[p]) >= rank_at(doc, l));
            assert(false);
        }
    }
    id
}

/// The fence that is open behind some lines, given the one before them.
spec fn fence_from(open: Option<Fence>, ls: Seq<Seq<char>>) -> Option<Fence>
    decreases ls.len(),
{
    if ls.len() == 0 {
        open
    } else {
        next_fence(fence_from(open, ls.drop_last()), ls.last())
    }
}

proof fn lemma_fence_of_both(a: Seq<Seq<char>>, b: Seq<Seq<char>>)
    ensures
        fence_after(a + b) == fence_from(fence_after(a), b),
    decreases b.len(),
{
    if b.len() == 0 {
        assert(a + b =~= a);
    } else {
        assert((a + b).drop_last() =~= a + b.drop_last());
        lemma_fence_of_both(a, b.drop_last());
    }
}

/// A blank line opens no fence and closes none.
proof fn lemma_blank_is_no_fence(line: Seq<char>, open: Option<Fence>)
    requires
        is_blank(line),
    ensures
        next_fence(open, line) == open,
{
    let s = trim_start(line);
    lemma_leading_space(line);
    let n = leading_space(line) as int;
    if s.len() > 0 {
        assert(s[0] == line[n]);
        lemma_trim_is(line, n, line.len() as int);
    }
}

proof fn lemma_blanks_are_no_fence(doc: Seq<Seq<char>>, from: int, to: int)
    requires
        0 <= from <= to <= doc.len(),
        forall|l: int| from <= l < to ==> is_blank(#[trigger] doc[l]),
    ensures
        fence_after(doc.take(to)) == fence_after(doc.take(from)),
    decreases to - from,
{
    if from < to {
        lemma_blanks_are_no_fence(doc, from, to - 1);
        assert(doc.take(to).drop_last() =~= doc.take(to - 1));
        assert(doc.take(to).last() == doc[to - 1]);
        lemma_blank_is_no_fence(doc[to - 1], fence_after(doc.take(to - 1)));
    }
}

proof fn lemma_skipped_are_blank(doc: Seq<Seq<char>>, start: int, end: int)
    requires
        0 <= start < end,
    ensures
        forall|l: int| before_blanks(doc, start, end) <= l < end ==> is_blank(#[trigger] doc[l]),
    decreases end,
{
    if end > start + 1 && is_blank(doc[end - 1]) {
        lemma_skipped_are_blank(doc, start, end - 1);
    }
}

/// Where a node ends no fence is open, or all that follows is blank.
proof fn lemma_fence_at_end(doc: Seq<Seq<char>>, k: int)
    requires
        0 <= k < item_ranks(doc).len(),
    ensures
        fence_after(doc.take(end_line(doc, k))) is None || forall|l: int|
            end_line(doc, k) <= l < doc.len() ==> is_blank(#[trigger] doc[l]),
{
    let ranks = item_ranks(doc);
    let at = item_lines(doc);
    lemma_item_lines(doc);
    lemma_next_at_most(ranks, k, k + 1);
    lemma_end_in_doc(doc, k);
    let next = next_at_most(ranks, k, k + 1);
    let raw = if next < at.len() {
        at[next]
    } else {
        doc.len() as int
    };
    assert(at[k] < raw);
    lemma_before_blanks(doc, at[k], raw);
    lemma_skipped_are_blank(doc, at[k], raw);
    if next < at.len() {
        lemma_no_node_in_a_fence(doc, next);
        lemma_blanks_are_no_fence(doc, end_line(doc, k), raw);
    }
}

/// The line of a document that a line above a moved block was before.
spec fn was_at(start: int, end: int, to: int, l: int) -> int {
    if to <= start || l < start {
        l
    } else {
        l + (end - start)
    }
}

/// Above a moved block stand the lines that stood above its new place, each
/// of them an item if it was one.
proof fn lemma_above(
    doc: Seq<Seq<char>>,
    m: int,
    to: int,
    kind: Kind,
    delta: int,
    l: int,
)
    requires
        0 <= m < item_ranks(doc).len(),
        0 <= to <= doc.len(),
        to <= item_lines(doc)[m] || end_line(doc, m) <= to,
        0 <= l < landing(item_lines(doc)[m], end_line(doc, m), to),
    ensures
        ({
            let (start, end) = (item_lines(doc)[m], end_line(doc, m));
            let after = moved_doc(doc, start, end, to, kind, delta);
            let w = was_at(start, end, to, l);
            &&& after.len() == doc.len()
            &&& 0 <= w < to
            &&& !(start <= w < end)
            &&& after[l] == doc[w]
            &&& is_item(after, l) <==> is_item(doc, w)
        }),
{
    let (start, end) = (item_lines(doc)[m], end_line(doc, m));
    let after = moved_doc(doc, start, end, to, kind, delta);
    let at = landing(start, end, to);
    let rest = cut(doc, start, end);
    lemma_end_in_doc(doc, m);
    lemma_item_lines(doc);
    let w = was_at(start, end, to, l);
    assert(shifted_block(doc.subrange(start, end), kind, delta).len() == end - start);
    assert(after[l] == rest[l]);
    assert(after.take(l) =~= rest.take(l));
    if to <= start || l < start {
        assert(rest.take(l) =~= doc.take(l));
    } else {
        let more = doc.subrange(end, w);
        assert(rest.take(l) =~= doc.take(start) + more);
        assert(doc.take(w) =~= doc.take(end) + more);
        lemma_fence_of_both(doc.take(start), more);
        lemma_fence_of_both(doc.take(end), more);
        lemma_no_node_in_a_fence(doc, m);
        lemma_fence_at_end(doc, m);
        if item_of(doc[w]) is Some {
            lemma_item_is_not_blank(doc[w]);
            assert(fence_after(doc.take(end)) is None);
        }
    }
}

/// Every item under another has an ancestor right under that one.
proof fn lemma_child_above(ranks: Seq<int>, p: int, x: int) -> (c: int)
    requires
        -1 <= p < x < ranks.len(),
        p >= 0 ==> forall|k: int| p < k <= x ==> #[trigger] ranks[k] > ranks[p],
    ensures
        p < c <= x,
        parent_index(ranks, c) == p,
        ranks[c] <= ranks[x],
        forall|k: int| c < k <= x ==> #[trigger] ranks[k] > ranks[c],
    decreases x,
{
    lemma_nearest_shallower(ranks, x, x);
    let y = parent_index(ranks, x);
    if y <= p {
        if p >= 0 && y < p {
            assert(ranks[p] >= ranks[x]);
            assert(false);
        }
        x
    } else {
        let c = lemma_child_above(ranks, p, y);
        assert forall|k: int| c < k <= x implies #[trigger] ranks[k] > ranks[c] by {
            if y < k < x {
                assert(ranks[k] >= ranks[x]);
            }
        }
        c
    }
}

/// The children of a parent, the moved node left out: who they are, and that
/// they stand in the order of the document.
proof fn lemma_others(doc: Seq<Seq<char>>, moved: u64, parent: Option<u64>)
    requires
        doc.len() <= u64::MAX,
        parent is Some ==> outline(doc).nodes.contains_key(parent->0),
    ensures
        ({
            let tree = outline(doc);
            let others = tree.other_children(parent, moved);
            let p = match parent {
                Some(p) => p - 1,
                None => -1,
            };
            &&& forall|c: u64| #[trigger]
                others.contains(c) <==> (c != moved && 1 <= c <= item_ranks(doc).len()
                    && parent_index(item_ranks(doc), c - 1) == p)
            &&& forall|a: int, b: int|
                0 <= a < b < others.len() ==> #[trigger] others[a] < #[trigger] others[b]
        }),
{
    let tree = outline(doc);
    let ranks = item_ranks(doc);
    lemma_item_lines(doc);
    let p = match parent {
        Some(p) => p - 1,
        None => -1,
    };
    let all = tree.children(parent);
    if parent is Some {
        assert(tree.nodes[parent->0] == outline_node(doc, p));
    }
    assert(all == children_upto(ranks, p, ranks.len() as int));
    lemma_children(ranks, p, ranks.len() as int);
    let keep = other_than(moved);
    let others = all.filter(keep);
    assert forall|c: u64| #[trigger] others.contains(c) <==> (c != moved && 1 <= c <= ranks.len()
        && parent_index(ranks, c - 1) == p) by {
        if others.contains(c) {
            all.lemma_filter_contains_rev(keep, c);
            assert(all.contains(c));
            let k = choose|k: int| 0 <= k < others.len() && others[k] == c;
            all.lemma_filter_pred(keep, k);
        }
        if c != moved && all.contains(c) {
            let k = choose|k: int| 0 <= k < all.len() && all[k] == c;
            all.lemma_filter_contains(keep, k);
        }
    }
    lemma_filter_rises(all, keep);
}

proof fn lemma_filter_rises(s: Seq<u64>, keep: spec_fn(u64) -> bool)
    requires
        forall|a: int, b: int| 0 <= a < b < s.len() ==> #[trigger] s[a] < #[trigger] s[b],
    ensures
        forall|a: int, b: int|
            0 <= a < b < s.filter(keep).len() ==> #[trigger] s.filter(keep)[a]
                < #[trigger] s.filter(keep)[b],
    decreases s.len(),
{
    reveal(Seq::filter);
    if s.len() > 0 {
        let rest = s.drop_last();
        assert forall|a: int, b: int| 0 <= a < b < rest.len() implies #[trigger] rest[a]
            < #[trigger] rest[b] by {
            assert(s[a] < s[b]);
        }
        lemma_filter_rises(rest, keep);
        let out = s.filter(keep);
        let before = rest.filter(keep);
        assert forall|a: int, b: int| 0 <= a < b < out.len() implies #[trigger] out[a]
            < #[trigger] out[b] by {
            if b < before.len() {
                assert(before[a] < before[b]);
            } else {
                assert(out[a] == before[a]);
                rest.lemma_filter_contains_rev(keep, before[a]);
                assert(before.contains(before[a]));
                let k = choose|k: int| 0 <= k < rest.len() && rest[k] == before[a];
                assert(s[k] < s[s.len() - 1]);
            }
        }
    }
}

/// The list items that lead a list of ids.
proof fn lemma_list_prefix(tree: Tree, ids: Seq<u64>)
    ensures
        0 <= tree.list_prefix(ids) <= ids.len(),
        forall|k: int|
            0 <= k < tree.list_prefix(ids) ==> tree.nodes[#[trigger] ids[k]].kind is ListItem,
        tree.list_prefix(ids) < ids.len() ==> tree.nodes[ids[tree.list_prefix(ids)]].kind is Heading,
    decreases ids.len(),
{
    if ids.len() > 0 && tree.nodes[ids[0]].kind is ListItem {
        let rest = ids.skip(1);
        lemma_list_prefix(tree, rest);
        assert forall|k: int| 0 <= k < tree.list_prefix(ids) implies tree.nodes[
        #[trigger] ids[k]].kind is ListItem by {
            if k > 0 {
                assert(rest[k - 1] == ids[k]);
            }
        }
        if tree.list_prefix(ids) < ids.len() {
            assert(rest[tree.list_prefix(rest)] == ids[tree.list_prefix(ids)]);
        }
    }
}

/// The parts of a move: what there is to move, and where to.
pub open spec fn new_line(doc: Seq<Seq<char>>, moved: u64, parent: Option<u64>, index: int) -> int {
    let tree = outline(doc);
    landing(
        tree.nodes[moved].line,
        tree.nodes[moved].end,
        tree.insert_line(moved, parent, index),
    )
}

/// Whether a node can be moved: it and the parent are there, the parent is
/// none of its own subtree, and a heading does not go under a list item.
pub open spec fn can_move(doc: Seq<Seq<char>>, moved: u64, parent: Option<u64>, index: int) -> bool {
    let nodes = outline(doc).nodes;
    &&& doc.len() <= u64::MAX
    &&& index >= 0
    &&& nodes.contains_key(moved)
    &&& parent is Some ==> nodes.contains_key(parent->0) && !within(doc, moved, parent->0)
    &&& parent is Some && nodes[moved].kind is Heading ==> nodes[parent->0].kind is Heading
}

/// The moved line: an item with the text it had, of the kind it had.
proof fn lemma_moved_line(doc: Seq<Seq<char>>, m: int, to: int, delta: int)
    requires
        0 <= m < item_ranks(doc).len(),
        0 <= to <= doc.len(),
        to <= item_lines(doc)[m] || end_line(doc, m) <= to,
    ensures
        ({
            let (start, end) = (item_lines(doc)[m], end_line(doc, m));
            let item = item_at(doc, m);
            let after = moved_doc(doc, start, end, to, item.kind, delta);
            let at = landing(start, end, to);
            &&& after.len() == doc.len()
            &&& 0 <= at < after.len()
            &&& item_of(after[at]) is Some
            &&& item_of(after[at])->0.text == item.text
            &&& match item.kind {
                Kind::Heading(level) => item_of(after[at])->0.kind == Kind::Heading(
                    clamp(level + delta, 1, 6) as u8,
                ) && item_of(after[at])->0.indent == 0,
                Kind::ListItem(bullet) => {
                    &&& item_of(after[at])->0.kind == Kind::ListItem(bullet)
                    &&& 0 <= item.indent + delta <= u16::MAX ==> item_of(after[at])->0.indent
                        == item.indent + delta
                },
            }
        }),
{
    let (start, end) = (item_lines(doc)[m], end_line(doc, m));
    let item = item_at(doc, m);
    let after = moved_doc(doc, start, end, to, item.kind, delta);
    let at = landing(start, end, to);
    let block = doc.subrange(start, end);
    let rest = cut(doc, start, end);
    lemma_end_in_doc(doc, m);
    lemma_item_lines(doc);
    lemma_item_kind(doc[start]);
    let shifted = shifted_block(block, item.kind, delta);
    assert(after[at] == shifted[0]);
    assert(block.take(0) =~= Seq::<Seq<char>>::empty());
    assert(block[0] == doc[start]);
    lemma_shifted_line_keeps_text(doc[start], item.kind, delta);
    if delta != 0 {
        assert(shifted[0] == shifted_line(doc[start], item.kind, delta));
        match item.kind {
            Kind::Heading(level) => {
                let (l, text) = heading_of(doc[start])->0;
                lemma_heading_line_reads_back(clamp(l + delta, 1, 6) as nat, text);
            },
            Kind::ListItem(bullet) => {
                let (indent, b, text) = list_item_of(doc[start])->0;
                if 0 <= indent + delta <= u16::MAX {
                    lemma_list_item_line_reads_back((indent + delta) as nat, b, text);
                }
            },
        }
    }
}

/// What nests under the parent above the moved node's new place is no
/// shallower than the moved node then is, if the parent's other children
/// there are not.
#[verifier::rlimit(80)]
#[verifier::spinoff_prover]
proof fn lemma_nothing_between(
    doc: Seq<Seq<char>>,
    moved: u64,
    parent: Option<u64>,
    index: int,
    rank: int,
    w: int,
)
    requires
        can_move(doc, moved, parent, index),
        forall|c: u64| #[trigger]
            outline(doc).other_children(parent, moved).contains(c) && outline(doc).nodes[c].line
                < outline(doc).insert_line(moved, parent, index) ==> item_ranks(doc)[c - 1] >= rank,
        is_item(doc, w),
        w < outline(doc).insert_line(moved, parent, index),
        parent is Some ==> outline(doc).nodes[parent->0].line < w,
        !(outline(doc).nodes[moved].line <= w < outline(doc).nodes[moved].end),
    ensures
        rank_at(doc, w) >= rank,
{
    let tree = outline(doc);
    let ranks = item_ranks(doc);
    let lines = item_lines(doc);
    let to = tree.insert_line(moved, parent, index);
    lemma_item_lines(doc);
    lemma_outline_wf(doc);
    lemma_others(doc, moved, parent);
    let others = tree.other_children(parent, moved);
    let x = lemma_node_at(doc, w) - 1;
    let m = moved - 1;
    assert(tree.nodes[moved] == outline_node(doc, m));
    let p = match parent {
        Some(p) => p - 1,
        None => -1,
    };
    let k = tree.clamped_index(moved, parent, index);
    lemma_list_prefix_nonneg(tree, others);
    if parent is Some {
        assert(tree.nodes[parent->0] == outline_node(doc, p));
        if x <= p {
            if x < p {
                assert(lines[x] < lines[p]);
            }
            assert(false);
        }
        lemma_next_at_most(ranks, p, p + 1);
        let next = next_at_most(ranks, p, p + 1);
        if x >= next {
            assert(lines[next] <= lines[x]) by {
                if next < x {
                    assert(lines[next] < lines[x]);
                }
            }
            if k < others.len() {
                let c = others[k];
                assert(others.contains(c));
                assert(tree.nodes[c] == outline_node(doc, c - 1));
                lemma_nearest_shallower(ranks, c - 1, c - 1);
                assert(next < c - 1 || next == c - 1 || next > c - 1);
                if next <= c - 1 {
                    if next < c - 1 {
                        assert(ranks[next] >= ranks[c - 1]);
                    }
                    assert(false);
                }
                assert(lines[c - 1] < lines[next]);
            } else {
                lemma_before_blanks(doc, lines[p], lines[next]);
                assert(to == end_line(doc, p));
            }
            assert(false);
        }
        assert forall|j: int| p < j <= x implies #[trigger] ranks[j] > ranks[p] by {}
    }
    let c = lemma_child_above(ranks, p, x);
    lemma_nearest_shallower(ranks, c, c);
    if c == m {
        lemma_next_at_most(ranks, m, m + 1);
        let e = next_at_most(ranks, m, m + 1);
        if e <= x {
            assert(ranks[e] > ranks[m]);
        }
        lemma_in_subtree(doc, m, x);
        assert(false);
    }
    let id = (c + 1) as u64;
    assert(others.contains(id));
    assert(tree.nodes[id] == outline_node(doc, c));
    if c < x {
        assert(lines[c] < lines[x]);
    }
}

/// An item of a subtree has its line in it.
proof fn lemma_in_subtree(doc: Seq<Seq<char>>, m: int, x: int)
    requires
        0 <= m <= x < next_at_most(item_ranks(doc), m, m + 1),
        x < item_ranks(doc).len(),
    ensures
        item_lines(doc)[m] <= item_lines(doc)[x] < end_line(doc, m),
{
    let ranks = item_ranks(doc);
    let lines = item_lines(doc);
    lemma_item_lines(doc);
    lemma_next_at_most(ranks, m, m + 1);
    lemma_end_in_doc(doc, m);
    let next = next_at_most(ranks, m, m + 1);
    let raw = if next < lines.len() {
        lines[next]
    } else {
        doc.len() as int
    };
    if m < x {
        assert(lines[m] < lines[x]);
        assert(x < next && lines[x] < raw);
        lemma_skipped_are_blank(doc, lines[m], raw);
        lemma_item_is_not_blank(doc[lines[x]]);
        if end_line(doc, m) <= lines[x] {
            assert(is_blank(doc[lines[x]]));
        }
    }
}

/// How deep the parent's other children above the new place are, where
/// markdown alone says so.
proof fn lemma_others_are_deep(
    doc: Seq<Seq<char>>,
    moved: u64,
    parent: Option<u64>,
    index: int,
    c: u64,
)
    requires
        can_move(doc, moved, parent, index),
        outline(doc).other_children(parent, moved).contains(c),
        outline(doc).nodes[c].line < outline(doc).insert_line(moved, parent, index),
    ensures
        parent is Some ==> item_ranks(doc)[c - 1] > item_ranks(doc)[parent->0 - 1],
        item_ranks(doc)[c - 1] >= 1,
        outline(doc).nodes[moved].kind is ListItem ==> item_ranks(doc)[c - 1] >= 65536,
{
    let tree = outline(doc);
    let ranks = item_ranks(doc);
    let lines = item_lines(doc);
    lemma_item_lines(doc);
    lemma_outline_wf(doc);
    lemma_others(doc, moved, parent);
    let others = tree.other_children(parent, moved);
    assert(tree.nodes[c] == outline_node(doc, c - 1));
    lemma_nearest_shallower(ranks, c - 1, c - 1);
    lemma_item_kind(doc[lines[c - 1]]);
    if tree.nodes[moved].kind is ListItem {
        lemma_list_prefix(tree, others);
        let b = tree.list_prefix(others);
        let k = tree.clamped_index(moved, parent, index);
        let i = choose|i: int| 0 <= i < others.len() && others[i] == c;
        if k < others.len() && i >= k {
            let d = others[k];
            assert(others.contains(d));
            assert(tree.nodes[d] == outline_node(doc, d - 1));
            if i > k {
                assert(others[k] < others[i]);
                assert(lines[d - 1] < lines[c - 1]);
            }
            assert(false);
        }
        assert(i < b);
        assert(tree.nodes[others[i]].kind is ListItem);
    }
}

/// A moved node becomes a child of the parent that it was moved to: reading
/// the new document gives a node at its new line, with the text it had, whose
/// parent is the one asked for, or that is outermost where none was. A
/// heading moved under another parent is one level deeper than that parent, a
/// list item under a heading or outermost is not indented, and a list item
/// under a list item is indented one step further than that one.
///
/// Three things can stand in the way. A heading of the last level has no room
/// for one below it. The place can lie in a code fence that nothing closes.
/// And a shallower child of the same parent above the new place takes the
/// node in: among its own siblings, or in a list with indents of its own.
#[verifier::rlimit(90)]
#[verifier::spinoff_prover]
pub proof fn lemma_moved_node_gets_its_parent(
    a: MindView,
    moved: u64,
    parent: Option<u64>,
    index: int,
)
    requires
        can_move(a.doc, moved, parent, index),
        parent is Some ==> outline(a.doc).nodes[parent->0].kind != Kind::Heading(6)
            || outline(a.doc).nodes[moved].kind is ListItem,
        parent is Some && outline(a.doc).nodes[parent->0].kind is ListItem ==> outline(
            a.doc,
        ).nodes[parent->0].indent + outline(a.doc).indent_step() <= u16::MAX,
        fence_after(
            a.moved(moved, parent, index).0.doc.take(new_line(a.doc, moved, parent, index)),
        ) is None,
        parent == outline(a.doc).nodes[moved].parent || (parent is Some && outline(
            a.doc,
        ).nodes[parent->0].kind is ListItem) ==> forall|c: u64| #[trigger]
            outline(a.doc).other_children(parent, moved).contains(c) && outline(a.doc).nodes[c].line
                < outline(a.doc).insert_line(moved, parent, index) ==> rank_at(
                a.doc,
                outline(a.doc).nodes[c].line,
            ) >= rank_at(
                a.moved(moved, parent, index).0.doc,
                new_line(a.doc, moved, parent, index),
            ),
    ensures
        ({
            let before = outline(a.doc).nodes;
            let after = outline(a.moved(moved, parent, index).0.doc).nodes;
            exists|id: u64| #[trigger]
                after.contains_key(id) && {
                    let node = after[id];
                    &&& node.line == new_line(a.doc, moved, parent, index)
                    &&& node.text == before[moved].text
                    &&& match parent {
                        None => node.parent is None,
                        Some(p) => {
                            &&& node.parent is Some && after.contains_key(node.parent->0)
                            &&& after[node.parent->0].text == before[p].text
                            &&& after[node.parent->0].kind == before[p].kind
                            &&& after[node.parent->0].indent == before[p].indent
                            &&& after[node.parent->0].line == if before[p].line
                                < before[moved].line {
                                before[p].line
                            } else {
                                before[p].line - (before[moved].end - before[moved].line)
                            }
                        },
                    }
                    &&& parent != before[moved].parent ==> match (before[moved].kind, parent) {
                        (Kind::Heading(_), None) => node.kind == Kind::Heading(1),
                        (Kind::Heading(_), Some(p)) => node.kind == Kind::Heading(
                            (before[p].kind->Heading_0 + 1) as u8,
                        ),
                        (Kind::ListItem(bullet), None) => node.kind == Kind::ListItem(bullet)
                            && node.indent == 0,
                        (Kind::ListItem(bullet), Some(p)) => node.kind == Kind::ListItem(bullet)
                            && if before[p].kind is Heading {
                            node.indent == 0
                        } else {
                            node.indent == before[p].indent + outline(a.doc).indent_step()
                                && node.indent > before[p].indent
                        },
                    }
                }
        }),
{
    let doc = a.doc;
    let tree = outline(doc);
    let ranks = item_ranks(doc);
    let lines = item_lines(doc);
    let after = a.moved(moved, parent, index).0.doc;
    let m = moved - 1;
    let node = tree.nodes[moved];
    let (start, end) = (node.line, node.end);
    let to = tree.insert_line(moved, parent, index);
    let delta = tree.depth_delta(moved, parent);
    let at = new_line(doc, moved, parent, index);
    lemma_item_lines(doc);
    lemma_outline_wf(doc);
    lemma_move_outside_fits(doc, moved, parent, index);
    assert(node == outline_node(doc, m));
    lemma_insert_in_doc(doc, moved, parent, index);
    assert(after == moved_doc(doc, start, end, to, node.kind, delta));
    lemma_moved_line(doc, m, to, delta);
    let rank = rank_at(after, at);
    lemma_step_positive(tree, 1);
    lemma_nearest_shallower(ranks, m, m);
    lemma_item_kind(doc[start]);
    let p = match parent {
        Some(p) => p - 1,
        None => -1,
    };
    if parent is Some {
        assert(tree.nodes[parent->0] == outline_node(doc, p));
        lemma_item_kind(doc[lines[p]]);
    }
    assert(delta == 0 ==> rank == ranks[m]);
    assert forall|c: u64| #[trigger]
        tree.other_children(parent, moved).contains(c) && tree.nodes[c].line
            < to implies item_ranks(doc)[c - 1] >= rank by {
        lemma_others(doc, moved, parent);
        assert(tree.nodes[c] == outline_node(doc, c - 1));
        lemma_others_are_deep(doc, moved, parent, index, c);
        assert(ranks[c - 1] == rank_at(doc, tree.nodes[c].line));
    }
    assert(after.take(at).len() == at);
    assert(is_item(after, at));
    assert forall|l: int|
        0 <= l < at && #[trigger] is_item(after, l) && (parent is Some ==> tree.nodes[parent->0].line
            < was_at(start, end, to, l)) implies rank_at(after, l) >= rank by {
        lemma_above(doc, m, to, node.kind, delta, l);
        let w = was_at(start, end, to, l);
        lemma_nothing_between(doc, moved, parent, index, rank, w);
    }
    let id = lemma_node_at(after, at);
    if parent is Some {
        let line = tree.nodes[parent->0].line;
        let q = if line < start {
            line
        } else {
            line - (end - start)
        };
        lemma_parent_above(doc, moved, parent->0, index);
        assert(was_at(start, end, to, q) == line);
        lemma_above(doc, m, to, node.kind, delta, q);
        lemma_item_lines_are_items(doc, line);
        assert(lines.contains(lines[p]));
        assert(is_item(after, q));
        assert(rank_at(after, q) == ranks[p]);
        assert(ranks[p] < rank);
        assert forall|l: int| q < l < at && #[trigger] is_item(after, l) implies rank_at(after, l)
            >= rank by {
            assert(line < was_at(start, end, to, l));
        }
        let pid = outline(after).nodes[id].parent->0;
        lemma_same_line(after, pid, q);
    }
    assert(outline(after).nodes.contains_key(id));
}

/// A node of a document is the item on its line.
proof fn lemma_same_line(doc: Seq<Seq<char>>, id: u64, l: int)
    requires
        doc.len() <= u64::MAX,
        outline(doc).nodes.contains_key(id),
        outline(doc).nodes[id].line == l,
    ensures
        outline(doc).nodes[id].kind == item_of(doc[l])->0.kind,
        outline(doc).nodes[id].indent == item_of(doc[l])->0.indent,
        outline(doc).nodes[id].text == item_of(doc[l])->0.text,
{
    assert(outline(doc).nodes[id] == outline_node(doc, id - 1));
}

proof fn lemma_step_positive(tree: Tree, id: int)
    ensures
        tree.indent_step_from(id) > 0,
    decreases tree.nodes.len() + 1 - id,
{
    if id <= tree.nodes.len() && !(tree.indent_gap(id as u64) > 0) {
        lemma_step_positive(tree, id + 1);
    }
}

/// A node goes to a line of the document that is none of its own.
proof fn lemma_insert_in_doc(doc: Seq<Seq<char>>, moved: u64, parent: Option<u64>, index: int)
    requires
        can_move(doc, moved, parent, index),
    ensures
        ({
            let tree = outline(doc);
            let to = tree.insert_line(moved, parent, index);
            &&& 0 <= to <= doc.len()
            &&& to <= tree.nodes[moved].line || tree.nodes[moved].end <= to
        }),
{
    let tree = outline(doc);
    lemma_item_lines(doc);
    lemma_move_outside_fits(doc, moved, parent, index);
    lemma_end_in_doc(doc, moved - 1);
    assert(tree.nodes[moved] == outline_node(doc, moved - 1));
}

/// The parent stands above the place that a node goes to.
proof fn lemma_parent_above(doc: Seq<Seq<char>>, moved: u64, parent: u64, index: int)
    requires
        can_move(doc, moved, Some(parent), index),
    ensures
        ({
            let tree = outline(doc);
            let to = tree.insert_line(moved, Some(parent), index);
            let line = tree.nodes[parent].line;
            &&& 0 <= line < to
            &&& line < tree.nodes[moved].line || tree.nodes[moved].end <= line
        }),
{
    let tree = outline(doc);
    let ranks = item_ranks(doc);
    let lines = item_lines(doc);
    let p = parent - 1;
    let m = moved - 1;
    lemma_item_lines(doc);
    lemma_outline_wf(doc);
    lemma_others(doc, moved, Some(parent));
    let others = tree.other_children(Some(parent), moved);
    let k = tree.clamped_index(moved, Some(parent), index);
    lemma_list_prefix_nonneg(tree, others);
    assert(tree.nodes[parent] == outline_node(doc, p));
    assert(tree.nodes[moved] == outline_node(doc, m));
    lemma_next_at_most(ranks, m, m + 1);
    lemma_line_outside(doc, m, p);
    if k < others.len() {
        let c = others[k];
        assert(others.contains(c));
        assert(tree.nodes[c] == outline_node(doc, c - 1));
        lemma_nearest_shallower(ranks, c - 1, c - 1);
        assert(lines[p] < lines[c - 1]);
    } else {
        lemma_end_in_doc(doc, p);
    }
}

/// Where a line outside a moved block goes.
pub open spec fn carried(start: int, end: int, at: int, l: int) -> int {
    let cut = if l < start {
        l
    } else {
        l - (end - start)
    };
    if cut < at {
        cut
    } else {
        cut + (end - start)
    }
}

/// A moved node takes the place that was asked for. Of the parent's other
/// children, in order, those before the index stand above it and those from
/// the index on below it. Among one parent's children the list items come
/// first and the headings after them: an index that would mix them is moved
/// to where they meet. Every line that is not moved stays as it is, and those
/// lines keep their order.
#[verifier::rlimit(80)]
#[verifier::spinoff_prover]
pub proof fn lemma_moved_node_takes_its_place(
    a: MindView,
    moved: u64,
    parent: Option<u64>,
    index: int,
    border: int,
    i: int,
)
    requires
        can_move(a.doc, moved, parent, index),
        ({
            let others = outline(a.doc).other_children(parent, moved);
            let nodes = outline(a.doc).nodes;
            &&& 0 <= border <= others.len()
            &&& forall|k: int| 0 <= k < border ==> nodes[#[trigger] others[k]].kind is ListItem
            &&& border < others.len() ==> nodes[others[border]].kind is Heading
            &&& 0 <= i < others.len()
        }),
    ensures
        ({
            let node = outline(a.doc).nodes[moved];
            let other = outline(a.doc).nodes[outline(a.doc).other_children(parent, moved)[i]];
            let after = a.moved(moved, parent, index).0.doc;
            let at = new_line(a.doc, moved, parent, index);
            let l = carried(node.line, node.end, at, other.line);
            let place = if node.kind is Heading {
                if index < border {
                    border
                } else {
                    index
                }
            } else {
                if index < border {
                    index
                } else {
                    border
                }
            };
            &&& 0 <= l < after.len() && after[l] == a.doc[other.line]
            &&& i < place ==> l < at
            &&& i >= place ==> at + (node.end - node.line) <= l
        }),
{
    let doc = a.doc;
    let tree = outline(doc);
    let m = moved - 1;
    let node = tree.nodes[moved];
    let to = tree.insert_line(moved, parent, index);
    lemma_item_lines(doc);
    lemma_outline_wf(doc);
    lemma_insert_in_doc(doc, moved, parent, index);
    lemma_others(doc, moved, parent);
    let others = tree.other_children(parent, moved);
    lemma_border(tree, others, border);
    let c = others[i];
    assert(others.contains(c));
    assert(tree.nodes[c] == outline_node(doc, c - 1));
    assert(node == outline_node(doc, m));
    lemma_end_in_doc(doc, m);
    lemma_not_within(doc, moved, parent, c);
    lemma_next_at_most(item_ranks(doc), m, m + 1);
    lemma_line_outside(doc, m, c - 1);
    lemma_above_or_below(doc, moved, parent, index, i);
    let delta = tree.depth_delta(moved, parent);
    lemma_carried(doc, node.line, node.end, to, node.kind, delta, tree.nodes[c].line);
}

/// Where the leading list items of some children end.
proof fn lemma_border(tree: Tree, ids: Seq<u64>, border: int)
    requires
        0 <= border <= ids.len(),
        forall|k: int| 0 <= k < border ==> tree.nodes[#[trigger] ids[k]].kind is ListItem,
        border < ids.len() ==> tree.nodes[ids[border]].kind is Heading,
    ensures
        tree.list_prefix(ids) == border,
{
    lemma_list_prefix(tree, ids);
    let b = tree.list_prefix(ids);
    if b < border {
        assert(tree.nodes[ids[b]].kind is ListItem);
    } else if border < b {
        assert(tree.nodes[ids[border]].kind is ListItem);
    }
}

/// The other children before the place that a node goes to stand above the
/// line that it goes to, and no others.
#[verifier::rlimit(80)]
#[verifier::spinoff_prover]
proof fn lemma_above_or_below(
    doc: Seq<Seq<char>>,
    moved: u64,
    parent: Option<u64>,
    index: int,
    i: int,
)
    requires
        can_move(doc, moved, parent, index),
        0 <= i < outline(doc).other_children(parent, moved).len(),
    ensures
        ({
            let tree = outline(doc);
            let c = tree.other_children(parent, moved)[i];
            tree.nodes[c].line < tree.insert_line(moved, parent, index) <==> i
                < tree.clamped_index(moved, parent, index)
        }),
{
    let tree = outline(doc);
    let ranks = item_ranks(doc);
    let lines = item_lines(doc);
    lemma_item_lines(doc);
    lemma_others(doc, moved, parent);
    let others = tree.other_children(parent, moved);
    let k = tree.clamped_index(moved, parent, index);
    lemma_list_prefix_nonneg(tree, others);
    let c = others[i];
    assert(others.contains(c));
    assert(tree.nodes[c] == outline_node(doc, c - 1));
    lemma_nearest_shallower(ranks, c - 1, c - 1);
    if k < others.len() {
        let d = others[k];
        assert(others.contains(d));
        assert(tree.nodes[d] == outline_node(doc, d - 1));
        if i < k {
            assert(others[i] < others[k]);
            assert(lines[c - 1] < lines[d - 1]);
        } else if k < i {
            assert(others[k] < others[i]);
            assert(lines[d - 1] < lines[c - 1]);
        }
    } else if parent is Some {
        let p = parent->0 - 1;
        assert(tree.nodes[parent->0] == outline_node(doc, p));
        lemma_next_at_most(ranks, p, p + 1);
        let next = next_at_most(ranks, p, p + 1);
        if next <= c - 1 {
            if next < c - 1 {
                assert(ranks[next] >= ranks[c - 1]);
            }
            assert(false);
        }
        lemma_in_subtree(doc, p, c - 1);
    } else {
        let d = others[others.len() - 1];
        assert(others.contains(d));
        assert(tree.nodes[d] == outline_node(doc, d - 1));
        lemma_end_in_doc(doc, d - 1);
        if i < others.len() - 1 {
            assert(others[i] < others[others.len() - 1]);
            assert(lines[c - 1] < lines[d - 1]);
        }
    }
}

/// Another child of the parent is none of the moved node's subtree.
proof fn lemma_not_within(doc: Seq<Seq<char>>, moved: u64, parent: Option<u64>, c: u64)
    requires
        doc.len() <= u64::MAX,
        outline(doc).nodes.contains_key(moved),
        parent is Some ==> outline(doc).nodes.contains_key(parent->0) && !within(
            doc,
            moved,
            parent->0,
        ),
        outline(doc).other_children(parent, moved).contains(c),
    ensures
        !within(doc, moved, c),
        c != moved,
{
    let ranks = item_ranks(doc);
    lemma_item_lines(doc);
    lemma_outline_wf(doc);
    lemma_others(doc, moved, parent);
    let m = moved - 1;
    lemma_next_at_most(ranks, m, m + 1);
    lemma_nearest_shallower(ranks, c - 1, c - 1);
    if within(doc, moved, c) {
        assert(ranks[c - 1] > ranks[m]);
        let q = parent_index(ranks, c - 1);
        if q < m {
            assert(ranks[m] >= ranks[c - 1]);
        }
        assert(false);
    }
}

proof fn lemma_carried(
    doc: Seq<Seq<char>>,
    start: int,
    end: int,
    to: int,
    kind: Kind,
    delta: int,
    l: int,
)
    requires
        0 <= start < end <= doc.len(),
        0 <= to <= doc.len(),
        to <= start || end <= to,
        0 <= l < doc.len(),
        l < start || end <= l,
    ensures
        ({
            let after = moved_doc(doc, start, end, to, kind, delta);
            let k = carried(start, end, landing(start, end, to), l);
            after.len() == doc.len() && 0 <= k < doc.len() && after[k] == doc[l]
        }),
{
    let rest = cut(doc, start, end);
    let block = shifted_block(doc.subrange(start, end), kind, delta);
    assert(block.len() == end - start);
    let k = if l < start {
        l
    } else {
        l - (end - start)
    };
    assert(rest[k] == doc[l]);
}

/// A moved subtree keeps its shape: the items of the moved kind change their
/// depth by as much as the moved node does, as far as a heading's levels and
/// the left margin allow, with the text they have; every other line, and all
/// that stands in a code fence, stays as it is.
#[verifier::rlimit(80)]
#[verifier::spinoff_prover]
pub proof fn lemma_moved_block_keeps_its_shape(
    a: MindView,
    moved: u64,
    parent: Option<u64>,
    index: int,
    i: int,
)
    requires
        can_move(a.doc, moved, parent, index),
        0 <= i < outline(a.doc).nodes[moved].end - outline(a.doc).nodes[moved].line,
        parent is Some && outline(a.doc).nodes[parent->0].kind is ListItem ==> outline(
            a.doc,
        ).nodes[parent->0].indent + outline(a.doc).indent_step() <= u16::MAX,
    ensures
        ({
            let node = outline(a.doc).nodes[moved];
            let after = a.moved(moved, parent, index).0.doc;
            let at = new_line(a.doc, moved, parent, index);
            let (was, now) = (a.doc[node.line + i], after[at + i]);
            let fenced = fence_after(a.doc.subrange(node.line, node.line + i)) is Some;
            let (old, new) = (item_of(was), item_of(now));
            let by = match (node.kind, item_of(after[at])->0.kind) {
                (Kind::Heading(l), Kind::Heading(n)) => n - l,
                _ => item_of(after[at])->0.indent - node.indent,
            };
            &&& 0 <= at && at + i < after.len()
            &&& fenced || old is None || (node.kind is Heading) != (old->0.kind is Heading)
                ==> now == was
            &&& !fenced && old is Some && node.kind is Heading && old->0.kind is Heading ==> {
                let level = old->0.kind->Heading_0 + by;
                &&& new is Some && new->0.kind is Heading && new->0.text == old->0.text
                &&& 1 <= level <= 6 ==> new->0.kind == Kind::Heading(level as u8)
                &&& level > 6 ==> new->0.kind == Kind::Heading(6)
                &&& level < 1 ==> new->0.kind == Kind::Heading(1)
            }
            &&& !fenced && old is Some && node.kind is ListItem && old->0.kind is ListItem ==> {
                &&& new is Some && new->0.kind == old->0.kind && new->0.text == old->0.text
                &&& 0 <= old->0.indent + by <= u16::MAX ==> new->0.indent == old->0.indent + by
                &&& old->0.indent + by < 0 ==> new->0.indent == 0
            }
        }),
{
    let doc = a.doc;
    let tree = outline(doc);
    let m = moved - 1;
    let node = tree.nodes[moved];
    let (start, end) = (node.line, node.end);
    let to = tree.insert_line(moved, parent, index);
    let delta = tree.depth_delta(moved, parent);
    let at = new_line(doc, moved, parent, index);
    let after = a.moved(moved, parent, index).0.doc;
    lemma_item_lines(doc);
    lemma_outline_wf(doc);
    lemma_insert_in_doc(doc, moved, parent, index);
    assert(node == outline_node(doc, m));
    lemma_end_in_doc(doc, m);
    lemma_item_kind(doc[start]);
    if parent is Some {
        assert(tree.nodes[parent->0] == outline_node(doc, parent->0 - 1));
        lemma_item_kind(doc[item_lines(doc)[parent->0 - 1]]);
    }
    lemma_step_positive(tree, 1);
    lemma_moved_line(doc, m, to, delta);
    match node.kind {
        Kind::Heading(l) => assert(1 <= l + delta <= 6),
        Kind::ListItem(_) => assert(0 <= node.indent + delta <= u16::MAX),
    }
    let block = doc.subrange(start, end);
    let shifted = shifted_block(block, node.kind, delta);
    assert(after == moved_doc(doc, start, end, to, node.kind, delta));
    assert(shifted.len() == block.len());
    assert(after[at + i] == shifted[i]);
    assert(block[i] == doc[start + i]);
    assert(block.take(i) =~= doc.subrange(start, start + i));
    let was = doc[start + i];
    if delta != 0 && fence_after(block.take(i)) is None {
        assert(shifted[i] == shifted_line(was, node.kind, delta));
        lemma_shifted_line_keeps_text(was, node.kind, delta);
        lemma_shifted_depth(was, node.kind, delta);
    }
}

/// How deep a rewritten line is.
proof fn lemma_shifted_depth(line: Seq<char>, kind: Kind, delta: int)
    ensures
        ({
            let (old, new) = (item_of(line), item_of(shifted_line(line, kind, delta)));
            &&& old is Some && kind is Heading && old->0.kind is Heading ==> new is Some
                && new->0.kind == Kind::Heading(
                clamp(old->0.kind->Heading_0 + delta, 1, 6) as u8,
            )
            &&& old is Some && kind is ListItem && old->0.kind is ListItem ==> {
                &&& new is Some && new->0.kind == old->0.kind
                &&& 0 <= old->0.indent + delta <= u16::MAX ==> new->0.indent == old->0.indent
                    + delta
                &&& old->0.indent + delta < 0 ==> new->0.indent == 0
            }
            &&& old is Some && (kind is Heading) != (old->0.kind is Heading) ==> shifted_line(
                line,
                kind,
                delta,
            ) == line
        }),
{
    lemma_shifted_line_keeps_text(line, kind, delta);
    if item_of(line) is Some {
        lemma_item_kind(line);
        match heading_of(line) {
            Some((level, text)) => {
                lemma_heading_line_reads_back(clamp(level + delta, 1, 6) as nat, text);
                lemma_heading_is_no_bullet(line);
            },
            None => {
                let (indent, bullet, text) = list_item_of(line)->0;
                if 0 <= indent + delta <= u16::MAX {
                    lemma_list_item_line_reads_back((indent + delta) as nat, bullet, text);
                } else if indent + delta < 0 {
                    lemma_list_item_line_reads_back(0, bullet, text);
                }
            },
        }
    }
}

proof fn lemma_heading_is_no_bullet(line: Seq<char>)
    requires
        heading_of(line) is Some,
    ensures
        list_item_of(line) is None,
{
    let s = trim_start(line);
    assert(s.len() > 0 && s[0] == '#');
}

/// Whether a node is a list item that sits further in than the list item it
/// nests under, and by how much.
pub open spec fn nests_by(tree: Tree, id: u64, by: int) -> bool {
    &&& tree.nodes.contains_key(id)
    &&& tree.nodes[id].kind is ListItem
    &&& tree.nodes[id].parent is Some
    &&& tree.nodes[tree.nodes[id].parent->0].kind is ListItem
    &&& by == tree.nodes[id].indent - tree.nodes[tree.nodes[id].parent->0].indent
    &&& by > 0
}

/// One step in is as far in as the first nested list item of the document
/// sits, or two columns where there is none.
pub proof fn lemma_indent_step_is_the_documents(tree: Tree)
    requires
        tree.wf(),
    ensures
        ({
            ||| exists|id: u64|
                #[trigger] nests_by(tree, id, tree.indent_step()) && forall|other: u64, by: int|
                    other < id ==> !#[trigger] nests_by(tree, other, by)
            ||| tree.indent_step() == 2 && forall|id: u64, by: int| !#[trigger] nests_by(tree, id, by)
        }),
{
    lemma_step_from(tree, 1);
}

proof fn lemma_step_from(tree: Tree, from: int)
    requires
        tree.wf(),
        1 <= from <= tree.nodes.len() + 1,
        forall|other: u64, by: int| other < from ==> !#[trigger] nests_by(tree, other, by),
    ensures
        ({
            let step = tree.indent_step_from(from);
            ||| exists|id: u64|
                #[trigger] nests_by(tree, id, step) && forall|other: u64, by: int|
                    other < id ==> !#[trigger] nests_by(tree, other, by)
            ||| step == 2 && forall|id: u64, by: int| !#[trigger] nests_by(tree, id, by)
        }),
    decreases tree.nodes.len() + 1 - from,
{
    if from > tree.nodes.len() {
        assert forall|id: u64, by: int| !#[trigger] nests_by(tree, id, by) by {
            if tree.nodes.contains_key(id) {
                assert(id <= tree.nodes.len());
            }
        }
    } else {
        assert(from <= u64::MAX) by {
            lemma_has_last(tree, from);
        }
        let id = from as u64;
        assert(tree.nodes.contains_key(id));
        if tree.indent_gap(id) > 0 {
            assert(nests_by(tree, id, tree.indent_gap(id)));
        } else {
            assert forall|other: u64, by: int| other < from + 1 implies !#[trigger] nests_by(
                tree,
                other,
                by,
            ) by {
                if other == id && nests_by(tree, other, by) {
                    assert(tree.nodes.contains_key(tree.nodes[id].parent->0));
                }
            }
            lemma_step_from(tree, from + 1);
        }
    }
}

/// There are no more nodes than ids.
proof fn lemma_has_last(tree: Tree, n: int)
    requires
        tree.wf(),
        n <= tree.nodes.len(),
    ensures
        n <= u64::MAX,
{
    if n > u64::MAX {
        let all = Set::new(|id: u64| 1 <= id <= u64::MAX);
        crate::outline_laws::lemma_id_set(u64::MAX as nat);
        assert(tree.nodes.dom() =~= all) by {
            assert forall|id: u64| tree.nodes.dom().contains(id) <==> all.contains(id) by {
                assert(tree.nodes.contains_key(id) <==> 1 <= id <= tree.nodes.len());
            }
        }
    }
}

} // verus!

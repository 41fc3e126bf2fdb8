//! What holds of every outline: its links agree with each other, its flat
//! order is the order of the document, and writing a node back as a line
//! reads as the same node.

use vstd::prelude::*;

use crate::mindmap::{first_index, other_than, outline, standing_in, Kind, Tree};
use crate::outline::{
    before_blanks, children_upto, clamp, cut, depth_index, end_line, fence_after, heading_line,
    heading_of, is_blank, is_bullet, item_lines, item_of, item_ranks, landing, leading_run,
    lemma_children, lemma_item_lines, lemma_nearest_shallower, lemma_no_early_children,
    lemma_skip_deeper, lemma_step_to_parent, list_item_line, list_item_of, moved_doc,
    nearest_shallower, next_at_most, next_fence, node_line, outline_node, parent_index,
    shifted_line, Fence, Item, OutlineNode,
};
use crate::text::{is_space, leading_space, repeated, trim, trim_end, trim_start, utf8_bytes};

verus! {

pub(crate) proof fn lemma_id_set(n: nat)
    requires
        n <= u64::MAX,
    ensures
        Set::new(|id: u64| 1 <= id <= n).finite(),
        Set::new(|id: u64| 1 <= id <= n).len() == n,
    decreases n,
{
    let s = Set::new(|id: u64| 1 <= id <= n);
    if n == 0 {
        assert(s =~= Set::empty());
    } else {
        let before = Set::new(|id: u64| 1 <= id <= (n - 1) as nat);
        lemma_id_set((n - 1) as nat);
        assert(s =~= before.insert(n as u64));
    }
}

pub(crate) proof fn lemma_item_kind(line: Seq<char>)
    requires
        item_of(line) is Some,
    ensures
        match item_of(line)->0.kind {
            Kind::Heading(level) => 1 <= level <= 6 && item_of(line)->0.indent == 0,
            Kind::ListItem(bullet) => is_bullet(bullet),
        },
{
}

pub(crate) proof fn lemma_before_blanks(doc: Seq<Seq<char>>, start: int, end: int)
    requires
        0 <= start < end,
    ensures
        start < before_blanks(doc, start, end) <= end,
    decreases end,
{
    if end > start + 1 && is_blank(doc[end - 1]) {
        lemma_before_blanks(doc, start, end - 1);
    }
}

pub proof fn lemma_next_at_most(ranks: Seq<int>, i: int, j: int)
    requires
        0 <= j <= ranks.len(),
    ensures
        j <= next_at_most(ranks, i, j) <= ranks.len(),
        next_at_most(ranks, i, j) < ranks.len() ==> ranks[next_at_most(ranks, i, j)] <= ranks[i],
        forall|k: int| j <= k < next_at_most(ranks, i, j) ==> #[trigger] ranks[k] > ranks[i],
    decreases ranks.len() - j,
{
    if j < ranks.len() && ranks[j] > ranks[i] {
        lemma_next_at_most(ranks, i, j + 1);
    }
}

proof fn lemma_depth_nonneg(ranks: Seq<int>, i: int)
    requires
        0 <= i < ranks.len(),
    ensures
        depth_index(ranks, i) >= 0,
    decreases i,
{
    lemma_nearest_shallower(ranks, i, i);
    let p = parent_index(ranks, i);
    if 0 <= p {
        lemma_depth_nonneg(ranks, p);
    }
}

/// The outline of any document is well formed.
pub proof fn lemma_outline_wf(doc: Seq<Seq<char>>)
    requires
        doc.len() <= u64::MAX,
    ensures
        outline(doc).wf(),
        outline(doc).nodes.len() == item_lines(doc).len(),
{
    let tree = outline(doc);
    let ranks = item_ranks(doc);
    let n = ranks.len();
    lemma_item_lines(doc);
    lemma_id_set(n);
    assert(tree.nodes.dom() =~= Set::new(|id: u64| 1 <= id <= n));
    lemma_children(ranks, -1, n as int);
    assert forall|id: u64| #[trigger] tree.nodes.contains_key(id) implies {
        let node = tree.nodes[id];
        &&& 0 <= node.line < node.end
        &&& node.depth >= 0
        &&& match node.kind {
            Kind::Heading(level) => 1 <= level <= 6 && node.indent == 0,
            Kind::ListItem(bullet) => is_bullet(bullet),
        }
        &&& match node.parent {
            None => node.depth == 0 && tree.roots.contains(id),
            Some(p) => {
                &&& tree.nodes.contains_key(p)
                &&& p < id
                &&& node.depth == tree.nodes[p].depth + 1
                &&& tree.nodes[p].children.contains(id)
            },
        }
    } by {
        let k = id - 1;
        let p = parent_index(ranks, k);
        lemma_item_kind(doc[item_lines(doc)[k]]);
        lemma_next_at_most(ranks, k, k + 1);
        let next = next_at_most(ranks, k, k + 1);
        let raw = if next < n {
            item_lines(doc)[next]
        } else {
            doc.len() as int
        };
        lemma_before_blanks(doc, item_lines(doc)[k], raw);
        lemma_depth_nonneg(ranks, k);
        lemma_nearest_shallower(ranks, k, k);
        if p >= 0 {
            lemma_children(ranks, p, n as int);
        }
    }
    assert forall|id: u64, c: u64|
        tree.nodes.contains_key(id) && #[trigger] tree.nodes[id].children.contains(c) implies {
        &&& tree.nodes.contains_key(c)
        &&& id < c
        &&& tree.nodes[c].parent == Some(id)
    } by {
        lemma_children(ranks, id - 1, n as int);
        lemma_nearest_shallower(ranks, c - 1, c - 1);
    }
}

/// The ids of the items `from..to`, without those in `lo..hi`.
pub open spec fn ids_between(from: int, to: int, lo: int, hi: int) -> Seq<u64>
    decreases to - from,
{
    if to <= from {
        Seq::empty()
    } else {
        let before = ids_between(from, to - 1, lo, hi);
        if lo <= to - 1 < hi {
            before
        } else {
            before.push(to as u64)
        }
    }
}

proof fn lemma_ids_split(from: int, mid: int, to: int, lo: int, hi: int)
    requires
        from <= mid <= to,
    ensures
        ids_between(from, to, lo, hi) == ids_between(from, mid, lo, hi) + ids_between(
            mid,
            to,
            lo,
            hi,
        ),
    decreases to - mid,
{
    if mid == to {
        assert(ids_between(mid, to, lo, hi) =~= Seq::empty());
        assert(ids_between(from, mid, lo, hi) + ids_between(mid, to, lo, hi) =~= ids_between(
            from,
            to,
            lo,
            hi,
        ));
    } else {
        lemma_ids_split(from, mid, to - 1, lo, hi);
        let all = ids_between(from, to, lo, hi);
        assert(all =~= ids_between(from, mid, lo, hi) + ids_between(mid, to, lo, hi));
    }
}

proof fn lemma_ids_skipped(from: int, to: int, lo: int, hi: int)
    requires
        lo <= from,
        to <= hi,
    ensures
        ids_between(from, to, lo, hi) == Seq::<u64>::empty(),
    decreases to - from,
{
    if from < to {
        lemma_ids_skipped(from, to - 1, lo, hi);
    }
}

/// The first item at or past `p`'s depth after `p`; -1 encloses everything.
spec fn subtree_end(ranks: Seq<int>, p: int) -> int {
    if p < 0 {
        ranks.len() as int
    } else {
        next_at_most(ranks, p, p + 1)
    }
}

/// Nothing strictly inside an item's subtree has a parent before the item.
proof fn lemma_parent_inside(ranks: Seq<int>, x: int, c: int)
    requires
        0 <= x < c < next_at_most(ranks, x, x + 1),
        c < ranks.len(),
    ensures
        parent_index(ranks, c) >= x,
{
    lemma_next_at_most(ranks, x, x + 1);
    lemma_nearest_shallower(ranks, c, c);
}

/// No item between a child of `p` and the end of that child's subtree is a
/// child of `p`.
proof fn lemma_children_gap(ranks: Seq<int>, p: int, c: int, m: int)
    requires
        -1 <= p < c < m <= next_at_most(ranks, c, c + 1),
        m <= ranks.len() <= u64::MAX,
        parent_index(ranks, c) == p,
    ensures
        children_upto(ranks, p, m) == children_upto(ranks, p, c).push((c + 1) as u64),
    decreases m - c,
{
    if m > c + 1 {
        lemma_children_gap(ranks, p, c, m - 1);
        lemma_parent_inside(ranks, c, m - 1);
    }
}

/// Where one child's subtree ends inside its parent's, the next child
/// begins.
proof fn lemma_next_child(ranks: Seq<int>, p: int, c: int)
    requires
        -1 <= p < c < ranks.len(),
        parent_index(ranks, c) == p,
        next_at_most(ranks, c, c + 1) < subtree_end(ranks, p),
    ensures
        parent_index(ranks, next_at_most(ranks, c, c + 1)) == p,
{
    let j = next_at_most(ranks, c, c + 1);
    lemma_next_at_most(ranks, c, c + 1);
    if p >= 0 {
        lemma_next_at_most(ranks, p, p + 1);
    }
    lemma_nearest_shallower(ranks, c, c);
    lemma_nearest_shallower(ranks, j, j);
    let q = parent_index(ranks, j);
    if q > p {
        assert(ranks[q] < ranks[j]);
        if q < c {
            assert(ranks[q] >= ranks[c]);
        }
        assert(false);
    }
    if q < p {
        assert(ranks[p] >= ranks[j]);
        assert(ranks[j] > ranks[p]);
        assert(false);
    }
}

/// The children of an item all lie in its subtree.
proof fn lemma_children_end(ranks: Seq<int>, p: int, m: int)
    requires
        0 <= p < ranks.len(),
        next_at_most(ranks, p, p + 1) <= m <= ranks.len(),
    ensures
        children_upto(ranks, p, m) == children_upto(ranks, p, next_at_most(ranks, p, p + 1)),
    decreases m,
{
    let e = next_at_most(ranks, p, p + 1);
    lemma_next_at_most(ranks, p, p + 1);
    if m > e {
        lemma_children_end(ranks, p, m - 1);
        let q = m - 1;
        lemma_nearest_shallower(ranks, q, q);
        if parent_index(ranks, q) == p {
            assert(ranks[p] < ranks[q]);
            if q > e {
                assert(ranks[e] >= ranks[q]);
            }
            assert(false);
        }
    }
}

/// Walking the children of `p` that begin before the boundary `c` visits
/// the items between `p` and `c` in order.
#[verifier::rlimit(60)]
#[verifier::spinoff_prover]
proof fn lemma_walk_children(doc: Seq<Seq<char>>, p: int, c: int, skip: Option<u64>, lo: int, hi: int)
    requires
        doc.len() <= u64::MAX,
        -1 <= p < c <= subtree_end(item_ranks(doc), p),
        p < item_ranks(doc).len(),
        c == p + 1 || c == subtree_end(item_ranks(doc), p) || parent_index(item_ranks(doc), c) == p,
        match skip {
            Some(id) => 1 <= id <= item_ranks(doc).len() && lo == id - 1 && hi == next_at_most(
                item_ranks(doc),
                id - 1,
                id as int,
            ),
            None => lo == 0 && hi == 0,
        },
        !(lo <= p < hi),
    ensures
        outline(doc).walk(p + 1, children_upto(item_ranks(doc), p, c), skip) == ids_between(
            p + 1,
            c,
            lo,
            hi,
        ),
    decreases item_ranks(doc).len() - p, c,
{
    let ranks = item_ranks(doc);
    let n = ranks.len() as int;
    let tree = outline(doc);
    lemma_item_lines(doc);
    if p >= 0 {
        lemma_next_at_most(ranks, p, p + 1);
    }
    if c == p + 1 {
        if p >= 0 {
            lemma_no_early_children(ranks, p, c);
        }
        assert(children_upto(ranks, p, c) =~= Seq::<u64>::empty());
    } else {
        let c0 = lemma_last_child(ranks, p, c);
        lemma_next_at_most(ranks, c0, c0 + 1);
        lemma_children_gap(ranks, p, c0, c);
        let ids = children_upto(ranks, p, c);
        let id = (c0 + 1) as u64;
        assert(ids.drop_last() =~= children_upto(ranks, p, c0));
        lemma_walk_children(doc, p, c0, skip, lo, hi);
        lemma_ids_split(p + 1, c0, c, lo, hi);
        if skip == Some(id) {
            lemma_ids_skipped(c0, c, lo, hi);
            assert(ids_between(p + 1, c0, lo, hi) + ids_between(c0, c, lo, hi) =~= ids_between(
                p + 1,
                c0,
                lo,
                hi,
            ));
        } else {
            if lo <= c0 < hi {
                if lo < c0 {
                    lemma_parent_inside(ranks, lo, c0);
                }
                assert(false);
            }
            lemma_children_end(ranks, c0, n);
            lemma_walk_children(doc, c0, c, skip, lo, hi);
            lemma_ids_split(c0, c0 + 1, c, lo, hi);
            assert(ids_between(c0, c0, lo, hi) =~= Seq::<u64>::empty());
            assert(ids_between(c0, c0 + 1, lo, hi) =~= seq![id]);
            assert(tree.nodes[id].children == children_upto(ranks, c0, n));
            let before = ids_between(p + 1, c0, lo, hi);
            let under = ids_between(c0 + 1, c, lo, hi);
            assert(before + seq![id] + under =~= before + (seq![id] + under));
        }
    }
}

/// The child of `p` whose subtree ends at the boundary `c`.
proof fn lemma_last_child(ranks: Seq<int>, p: int, c: int) -> (c0: int)
    requires
        -1 <= p,
        p + 1 < c <= subtree_end(ranks, p),
        c <= ranks.len(),
        c == subtree_end(ranks, p) || parent_index(ranks, c) == p,
    ensures
        p < c0 < c,
        parent_index(ranks, c0) == p,
        next_at_most(ranks, c0, c0 + 1) == c,
{
    if p >= 0 {
        lemma_next_at_most(ranks, p, p + 1);
    }
    lemma_nearest_shallower(ranks, p + 1, p + 1);
    assert(parent_index(ranks, p + 1) == p);
    lemma_last_child_from(ranks, p, p + 1, c)
}

proof fn lemma_last_child_from(ranks: Seq<int>, p: int, from: int, c: int) -> (c0: int)
    requires
        -1 <= p < from < c <= subtree_end(ranks, p),
        c <= ranks.len(),
        parent_index(ranks, from) == p,
        c == subtree_end(ranks, p) || parent_index(ranks, c) == p,
    ensures
        p < c0 < c,
        parent_index(ranks, c0) == p,
        next_at_most(ranks, c0, c0 + 1) == c,
    decreases c - from,
{
    lemma_next_at_most(ranks, from, from + 1);
    let j = next_at_most(ranks, from, from + 1);
    if p >= 0 {
        lemma_next_at_most(ranks, p, p + 1);
    }
    if j > c {
        assert(c < ranks.len());
        if c == subtree_end(ranks, p) {
            assert(p >= 0);
            lemma_nearest_shallower(ranks, from, from);
            assert(ranks[c] <= ranks[p] < ranks[from]);
            assert(ranks[c] > ranks[from]);
        } else {
            lemma_parent_inside(ranks, from, c);
        }
        assert(false);
        from
    } else if j == c {
        from
    } else {
        lemma_next_child(ranks, p, from);
        lemma_last_child_from(ranks, p, j, c)
    }
}

/// The flat order of an outline is the order of the document: every id from
/// the first to the last, less those in the subtree that is left out.
pub proof fn lemma_flat_is_document_order(doc: Seq<Seq<char>>, skip: Option<u64>)
    requires
        doc.len() <= u64::MAX,
        skip is Some ==> outline(doc).nodes.contains_key(skip->0),
    ensures
        outline(doc).flat(skip) == match skip {
            Some(id) => ids_between(
                0,
                item_lines(doc).len() as int,
                id - 1,
                next_at_most(item_ranks(doc), id - 1, id as int),
            ),
            None => ids_between(0, item_lines(doc).len() as int, 0, 0),
        },
{
    let n = item_ranks(doc).len() as int;
    let (lo, hi) = match skip {
        Some(id) => (id - 1, next_at_most(item_ranks(doc), id - 1, id as int)),
        None => (0int, 0int),
    };
    if n == 0 {
        assert(outline(doc).roots =~= Seq::<u64>::empty());
    } else {
        lemma_walk_children(doc, -1, n, skip, lo, hi);
    }
}

/// A list item is never a heading's parent.
pub proof fn lemma_heading_nests_under_heading(doc: Seq<Seq<char>>, id: u64, parent: u64)
    requires
        doc.len() <= u64::MAX,
        outline(doc).nodes.contains_key(id),
        outline(doc).nodes[id].kind is Heading,
        outline(doc).nodes[id].parent == Some(parent),
    ensures
        outline(doc).nodes[parent].kind is Heading,
        outline(doc).nodes[parent].kind->Heading_0 < outline(doc).nodes[id].kind->Heading_0,
{
    let ranks = item_ranks(doc);
    lemma_item_lines(doc);
    lemma_nearest_shallower(ranks, id - 1, id - 1);
}

pub(crate) proof fn lemma_leading_space(s: Seq<char>)
    ensures
        leading_space(s) <= s.len(),
        leading_space(s) < s.len() ==> !is_space(s[leading_space(s) as int]),
        forall|k: int| 0 <= k < leading_space(s) ==> is_space(#[trigger] s[k]),
    decreases s.len(),
{
    if s.len() > 0 && is_space(s[0]) {
        lemma_leading_space(s.skip(1));
        assert forall|k: int| 0 <= k < leading_space(s) implies is_space(#[trigger] s[k]) by {
            if k > 0 {
                assert(s.skip(1)[k - 1] == s[k]);
            }
        }
    }
}

pub(crate) proof fn lemma_leading_space_is(s: Seq<char>, n: nat)
    requires
        n <= s.len(),
        forall|k: int| 0 <= k < n ==> is_space(#[trigger] s[k]),
        n < s.len() ==> !is_space(s[n as int]),
    ensures
        leading_space(s) == n,
{
    lemma_leading_space(s);
    if leading_space(s) < n {
        assert(is_space(s[leading_space(s) as int]));
    }
    if n < leading_space(s) {
        assert(is_space(s[n as int]));
    }
}

pub(crate) proof fn lemma_leading_run_is(s: Seq<char>, c: char, n: nat)
    requires
        n <= s.len(),
        forall|k: int| 0 <= k < n ==> #[trigger] s[k] == c,
        n < s.len() ==> s[n as int] != c,
    ensures
        leading_run(s, c) == n,
    decreases s.len(),
{
    if n > 0 {
        assert(s[0] == c);
        let rest = s.skip(1);
        assert forall|k: int| 0 <= k < n - 1 implies #[trigger] rest[k] == c by {
            assert(s[k + 1] == c);
        }
        lemma_leading_run_is(rest, c, (n - 1) as nat);
    }
}

/// Trimming the start a second time changes nothing.
pub proof fn lemma_trim_start_twice(s: Seq<char>)
    ensures
        trim_start(trim_start(s)) == trim_start(s),
{
    lemma_leading_space(s);
    lemma_leading_space_is(trim_start(s), 0);
    assert(trim_start(s).skip(0) =~= trim_start(s));
}

proof fn lemma_trim_end(s: Seq<char>)
    ensures
        trim_end(s).len() <= s.len(),
        trim_end(s) == s.take(trim_end(s).len() as int),
        trim_end(s).len() > 0 ==> !is_space(trim_end(s).last()),
        trim_end(trim_end(s)) == trim_end(s),
    decreases s.len(),
{
    if s.len() > 0 && is_space(s.last()) {
        lemma_trim_end(s.drop_last());
        assert(s.drop_last().take(trim_end(s).len() as int) =~= s.take(trim_end(s).len() as int));
    } else {
        assert(s.take(s.len() as int) =~= s);
    }
}

/// Trimming a second time changes nothing.
pub proof fn lemma_trim_twice(s: Seq<char>)
    ensures
        trim(trim(s)) == trim(s),
{
    let a = trim_start(s);
    lemma_leading_space(s);
    lemma_trim_end(a);
    let t = trim(s);
    if t.len() > 0 {
        assert(t[0] == a[0]);
    }
    lemma_leading_space_is(t, 0);
    assert(t.skip(0) =~= t);
}

/// What trimming leaves of a string that is blank outside `a..b` and where
/// `a..b` has no space at its ends.
pub proof fn lemma_trim_is(s: Seq<char>, a: int, b: int)
    requires
        0 <= a <= b <= s.len(),
    ensures
        trim(s).len() <= s.len(),
        (forall|k: int| 0 <= k < a || b <= k < s.len() ==> is_space(#[trigger] s[k])) && (a < b
            ==> !is_space(s[a]) && !is_space(s[b - 1])) ==> trim(s) == s.subrange(a, b),
        a < b && !is_space(s[a]) ==> trim(s).len() > 0,
        trim(s) == s && s.len() > 0 ==> !is_space(s[0]) && !is_space(s.last()),
{
    lemma_leading_space(s);
    let n = leading_space(s);
    let t = trim_start(s);
    lemma_trim_end(t);
    if a < b && !is_space(s[a]) {
        assert(n <= a);
        assert(t[a - n] == s[a]);
        lemma_trim_end_nonempty(t, a - n);
    }
    if trim(s) == s && s.len() > 0 {
        assert(n == 0);
        assert(t =~= s);
    }
    if (forall|k: int| 0 <= k < a || b <= k < s.len() ==> is_space(#[trigger] s[k])) && (a < b
        ==> !is_space(s[a]) && !is_space(s[b - 1])) {
        let m = trim(s).len();
        if a < b {
            lemma_leading_space_is(s, a as nat);
            assert(t[b - 1 - a] == s[b - 1]);
            lemma_trim_end_nonempty(t, b - 1 - a);
            if m > b - a {
                assert(trim(s).last() == t[m - 1]);
                assert(is_space(s[a + m - 1]));
            }
            assert(trim(s) =~= s.subrange(a, b));
        } else {
            if n < s.len() {
                assert(is_space(s[n as int]));
            }
            assert(trim(s) =~= s.subrange(a, b));
        }
    }
}

proof fn lemma_spaces(n: nat)
    ensures
        utf8_bytes(repeated(' ', n)) == n,
    decreases n,
{
    if n > 0 {
        lemma_spaces((n - 1) as nat);
        assert(repeated(' ', n).drop_last() =~= repeated(' ', (n - 1) as nat));
    }
}

/// A space before a text is trimmed off with the space that leads it.
proof fn lemma_trim_start_after_space(text: Seq<char>)
    ensures
        trim_start(seq![' '] + text) == trim_start(text),
{
    let s = seq![' '] + text;
    lemma_leading_space(text);
    let n = leading_space(text) + 1;
    assert forall|k: int| 0 <= k < n implies is_space(#[trigger] s[k]) by {
        if k > 0 {
            assert(is_space(text[k - 1]));
        }
    }
    lemma_leading_space_is(s, n);
    assert(s.skip(n as int) =~= text.skip(n - 1));
}

/// A line written for a heading reads as that heading: same level, and the
/// text less the space around it.
pub proof fn lemma_heading_line_reads_back(level: nat, text: Seq<char>)
    requires
        1 <= level <= 6,
    ensures
        item_of(heading_line(level, text)) == Some(
            Item { kind: Kind::Heading(level as u8), indent: 0, text: trim(text) },
        ),
{
    let line = heading_line(level, text);
    lemma_leading_space_is(line, 0);
    assert(trim_start(line) =~= line);
    assert forall|k: int| 0 <= k < level implies #[trigger] line[k] == '#' by {}
    assert(line[level as int] == ' ');
    lemma_leading_run_is(line, '#', level);
    let rest = line.skip(level as int);
    assert(rest =~= seq![' '] + text);
    lemma_trim_start_after_space(text);
}

/// A line written for a list item reads as that item: same indent, same
/// bullet, and the text less the space before it.
pub proof fn lemma_list_item_line_reads_back(indent: nat, bullet: char, text: Seq<char>)
    requires
        is_bullet(bullet),
        indent <= u16::MAX,
    ensures
        item_of(list_item_line(indent, bullet, text)) == Some(
            Item {
                kind: Kind::ListItem(bullet),
                indent: indent as u16,
                text: trim_start(text),
            },
        ),
{
    lemma_list_item_line(indent, bullet, text);
    lemma_spaces(indent);
}

/// A written list item of any indent reads as a list item with its bullet
/// and text.
proof fn lemma_list_item_line(indent: nat, bullet: char, text: Seq<char>)
    requires
        is_bullet(bullet),
    ensures
        heading_of(list_item_line(indent, bullet, text)) is None,
        list_item_of(list_item_line(indent, bullet, text)) == Some(
            (
                (utf8_bytes(repeated(' ', indent)) % 65536) as u16,
                bullet,
                trim_start(text),
            ),
        ),
{
    let line = list_item_line(indent, bullet, text);
    assert forall|k: int| 0 <= k < indent implies is_space(#[trigger] line[k]) by {
        assert(line[k] == ' ');
    }
    assert(line[indent as int] == bullet);
    lemma_leading_space_is(line, indent);
    let s = trim_start(line);
    assert(s =~= seq![bullet, ' '] + text);
    lemma_leading_run_is(s, '#', 0);
    assert(s.skip(1) =~= seq![' '] + text);
    lemma_trim_start_after_space(text);
    assert(line.take(indent as int) =~= repeated(' ', indent));
}

/// Rewriting a line of a moved block changes how deep it is and nothing
/// else: an item stays an item with its text, any other line stays as it
/// is.
pub proof fn lemma_shifted_line_keeps_text(line: Seq<char>, kind: Kind, delta: int)
    ensures
        item_of(shifted_line(line, kind, delta)) is Some <==> item_of(line) is Some,
        item_of(line) is None ==> shifted_line(line, kind, delta) == line,
        item_of(line) is Some ==> {
            let before = item_of(line)->0;
            let after = item_of(shifted_line(line, kind, delta))->0;
            &&& after.text == before.text
            &&& match (before.kind, after.kind) {
                (Kind::Heading(_), Kind::Heading(_)) => true,
                (Kind::ListItem(a), Kind::ListItem(b)) => a == b,
                _ => false,
            }
        },
{
    match kind {
        Kind::Heading(_) => match heading_of(line) {
            Some((level, text)) => {
                lemma_trim_twice(trim_start(line).skip(leading_run(trim_start(line), '#') as int));
                lemma_heading_line_reads_back(clamp(level + delta, 1, 6) as nat, text);
            },
            None => {},
        },
        Kind::ListItem(_) => match list_item_of(line) {
            Some((indent, bullet, text)) => {
                lemma_trim_start_twice(trim_start(line).skip(1));
                lemma_bullet_is_no_heading(line);
                lemma_list_item_line(
                    if indent + delta < 0 {
                        0
                    } else {
                        (indent + delta) as nat
                    },
                    bullet,
                    text,
                );
            },
            None => {},
        },
    }
}

proof fn lemma_bullet_is_no_heading(line: Seq<char>)
    requires
        list_item_of(line) is Some,
    ensures
        heading_of(line) is None,
{
    lemma_leading_run_is(trim_start(line), '#', 0);
}

/// A move that keeps the depth is nothing but a block of lines changing
/// position: the moved lines stand unchanged at the new place, the others
/// keep their order, and no line comes or goes.
pub proof fn lemma_reorder_moves_a_block(
    doc: Seq<Seq<char>>,
    start: int,
    end: int,
    insert_at: int,
    kind: Kind,
)
    requires
        0 <= start <= end <= doc.len(),
        0 <= landing(start, end, insert_at) <= doc.len() - (end - start),
    ensures
        ({
            let after = moved_doc(doc, start, end, insert_at, kind, 0);
            let at = landing(start, end, insert_at);
            &&& after.subrange(at, at + (end - start)) == doc.subrange(start, end)
            &&& cut(after, at, at + (end - start)) == cut(
                doc,
                start,
                end,
            )
            &&& after.to_multiset() == doc.to_multiset()
        }),
{
    let rest = cut(doc, start, end);
    let at = landing(start, end, insert_at);
    let block = doc.subrange(start, end);
    let after = moved_doc(doc, start, end, insert_at, kind, 0);
    assert(after =~= rest.take(at) + block + rest.skip(at));
    assert(after.subrange(at, at + (end - start)) =~= block);
    assert(cut(after, at, at + (end - start)) =~= rest);
    vstd::seq_lib::lemma_multiset_commutative(rest.take(at) + block, rest.skip(at));
    vstd::seq_lib::lemma_multiset_commutative(rest.take(at), block);
    vstd::seq_lib::lemma_multiset_commutative(rest.take(at), rest.skip(at));
    assert(rest =~= rest.take(at) + rest.skip(at));
    vstd::seq_lib::lemma_multiset_commutative(doc.take(start) + block, doc.skip(end));
    vstd::seq_lib::lemma_multiset_commutative(doc.take(start), block);
    vstd::seq_lib::lemma_multiset_commutative(doc.take(start), doc.skip(end));
    assert(doc =~= doc.take(start) + block + doc.skip(end));
    let b = block.to_multiset();
    let r = rest.to_multiset();
    assert(r == rest.take(at).to_multiset().add(rest.skip(at).to_multiset()));
    assert(r == doc.take(start).to_multiset().add(doc.skip(end).to_multiset()));
    assert(after.to_multiset() =~= r.add(b));
    assert(doc.to_multiset() =~= r.add(b));
}

proof fn lemma_before_blanks_reaches(doc: Seq<Seq<char>>, start: int, end: int, k: int)
    requires
        0 <= start < k <= end,
        !is_blank(doc[k - 1]),
    ensures
        k <= before_blanks(doc, start, end),
    decreases end,
{
    if end > start + 1 && is_blank(doc[end - 1]) {
        lemma_before_blanks_reaches(doc, start, end - 1, k);
    }
}

proof fn lemma_before_blanks_last(doc: Seq<Seq<char>>, start: int, end: int)
    requires
        0 <= start < end,
    ensures
        before_blanks(doc, start, end) > start + 1 ==> !is_blank(
            doc[before_blanks(doc, start, end) - 1],
        ),
    decreases end,
{
    if end > start + 1 && is_blank(doc[end - 1]) {
        lemma_before_blanks_last(doc, start, end - 1);
    }
}

pub(crate) proof fn lemma_item_is_not_blank(line: Seq<char>)
    requires
        item_of(line) is Some,
    ensures
        !is_blank(line),
{
    let s = trim_start(line);
    lemma_leading_space(line);
    lemma_leading_run_is_zero_of_empty();
    assert(s.len() > 0);
    assert(!is_space(s[0]));
    lemma_trim_end_nonempty(s, 0);
}

pub(crate) proof fn lemma_leading_run_is_zero_of_empty()
    ensures
        leading_run(Seq::<char>::empty(), '#') == 0,
{
}

proof fn lemma_trim_end_nonempty(s: Seq<char>, k: int)
    requires
        0 <= k < s.len(),
        !is_space(s[k]),
    ensures
        trim_end(s).len() > k,
    decreases s.len(),
{
    if is_space(s.last()) {
        lemma_trim_end_nonempty(s.drop_last(), k);
    }
}

/// Seen from outside a subtree, a node ends before the subtree begins or
/// not before it ends.
proof fn lemma_end_outside(doc: Seq<Seq<char>>, m: int, q: int)
    requires
        0 <= m < item_ranks(doc).len(),
        0 <= q < item_ranks(doc).len(),
        !(m <= q < next_at_most(item_ranks(doc), m, m + 1)),
    ensures
        end_line(doc, q) <= item_lines(doc)[m] || end_line(doc, m) <= end_line(doc, q) <= doc.len(),
{
    let ranks = item_ranks(doc);
    let at = item_lines(doc);
    let n = ranks.len() as int;
    lemma_item_lines(doc);
    lemma_next_at_most(ranks, m, m + 1);
    lemma_next_at_most(ranks, q, q + 1);
    let e = next_at_most(ranks, m, m + 1);
    let j = next_at_most(ranks, q, q + 1);
    let raw_m = if e < n {
        at[e]
    } else {
        doc.len() as int
    };
    let raw_q = if j < n {
        at[j]
    } else {
        doc.len() as int
    };
    lemma_before_blanks(doc, at[m], raw_m);
    lemma_before_blanks(doc, at[q], raw_q);
    if q < m {
        if j > m {
            if j < e {
                assert(ranks[j] > ranks[m]);
                assert(ranks[m] > ranks[q]);
                assert(false);
            }
            assert(raw_m <= raw_q);
            lemma_before_blanks_last(doc, at[m], raw_m);
            lemma_item_is_not_blank(doc[at[m]]);
            lemma_before_blanks_reaches(doc, at[q], raw_q, end_line(doc, m));
        }
    } else {
        assert(at[q] >= at[e]);
    }
}

/// The items of a subtree lie between the subtree's first line and its end.
pub(crate) proof fn lemma_line_outside(doc: Seq<Seq<char>>, m: int, q: int)
    requires
        0 <= m < item_ranks(doc).len(),
        0 <= q < item_ranks(doc).len(),
        q != m,
        q < m || next_at_most(item_ranks(doc), m, m + 1) <= q,
    ensures
        item_lines(doc)[q] < item_lines(doc)[m] || end_line(doc, m) <= item_lines(doc)[q]
            < doc.len(),
{
    let ranks = item_ranks(doc);
    let at = item_lines(doc);
    lemma_item_lines(doc);
    lemma_next_at_most(ranks, m, m + 1);
    let e = next_at_most(ranks, m, m + 1);
    if q > m {
        lemma_before_blanks(doc, at[m], at[e]);
        if e < q {
            assert(at[e] < at[q]);
        }
    }
}

/// Whether the node is the moved one or nests under it.
pub open spec fn within(doc: Seq<Seq<char>>, moved: u64, id: u64) -> bool {
    moved <= id && id - 1 < next_at_most(item_ranks(doc), moved - 1, moved as int)
}

/// A node can go under any parent outside its own subtree: the place it
/// goes to is no line of its own.
pub proof fn lemma_move_outside_fits(
    doc: Seq<Seq<char>>,
    moved: u64,
    parent: Option<u64>,
    index: int,
)
    requires
        doc.len() <= u64::MAX,
        index >= 0,
        outline(doc).nodes.contains_key(moved),
        parent is Some ==> outline(doc).nodes.contains_key(parent->0) && !within(
            doc,
            moved,
            parent->0,
        ),
    ensures
        ({
            let tree = outline(doc);
            let at = tree.insert_line(moved, parent, index);
            &&& tree.nodes[moved].line < tree.nodes[moved].end <= doc.len()
            &&& 0 <= at
            &&& at > tree.nodes[moved].line ==> tree.nodes[moved].end <= at <= doc.len()
        }),
{
    let tree = outline(doc);
    let ranks = item_ranks(doc);
    let m = moved - 1;
    lemma_outline_wf(doc);
    lemma_item_lines(doc);
    lemma_next_at_most(ranks, m, m + 1);
    let siblings = tree.other_children(parent, moved);
    let at = tree.clamped_index(moved, parent, index);
    lemma_end_in_doc(doc, m);
    assert forall|k: int| 0 <= k < siblings.len() implies {
        let s = #[trigger] siblings[k];
        &&& tree.nodes.contains_key(s)
        &&& !within(doc, moved, s)
    } by {
        let s = siblings[k];
        tree.children(parent).lemma_filter_contains_rev(other_than(moved), s);
        assert(tree.children(parent).contains(s));
        if within(doc, moved, s) {
            lemma_parent_inside(ranks, m, s - 1);
            if parent is Some {
                lemma_nearest_shallower(ranks, s - 1, s - 1);
            }
            assert(false);
        }
    }
    lemma_list_prefix_nonneg(tree, siblings);
    if at < siblings.len() {
        let s = siblings[at];
        lemma_line_outside(doc, m, s - 1);
    } else if parent is Some {
        lemma_end_in_doc(doc, parent->0 - 1);
        lemma_end_outside(doc, m, parent->0 - 1);
    } else if siblings.len() > 0 {
        let s = siblings[siblings.len() - 1];
        lemma_end_in_doc(doc, s - 1);
        lemma_end_outside(doc, m, s - 1);
    }
}

pub(crate) proof fn lemma_list_prefix_nonneg(tree: Tree, ids: Seq<u64>)
    ensures
        0 <= tree.list_prefix(ids) <= ids.len(),
    decreases ids.len(),
{
    if ids.len() > 0 {
        lemma_list_prefix_nonneg(tree, ids.skip(1));
    }
}

pub(crate) proof fn lemma_end_in_doc(doc: Seq<Seq<char>>, k: int)
    requires
        0 <= k < item_ranks(doc).len(),
    ensures
        0 <= item_lines(doc)[k] < end_line(doc, k) <= doc.len(),
{
    let ranks = item_ranks(doc);
    let at = item_lines(doc);
    lemma_item_lines(doc);
    lemma_next_at_most(ranks, k, k + 1);
    let next = next_at_most(ranks, k, k + 1);
    let raw = if next < at.len() {
        at[next]
    } else {
        doc.len() as int
    };
    lemma_before_blanks(doc, at[k], raw);
}

proof fn lemma_ids_outside(from: int, to: int, lo: int, hi: int, k: int)
    requires
        0 <= from,
        to <= u64::MAX,
        0 <= k < ids_between(from, to, lo, hi).len(),
    ensures
        from < ids_between(from, to, lo, hi)[k] <= to,
        !(lo <= ids_between(from, to, lo, hi)[k] - 1 < hi),
    decreases to - from,
{
    if from < to && k < ids_between(from, to - 1, lo, hi).len() {
        lemma_ids_outside(from, to - 1, lo, hi, k);
    }
}

/// Climbing from a node outside a subtree never enters it.
#[verifier::rlimit(40)]
#[verifier::spinoff_prover]
proof fn lemma_climb_outside(doc: Seq<Seq<char>>, moved: u64, of: u64, depth: int)
    requires
        doc.len() <= u64::MAX,
        outline(doc).nodes.contains_key(moved),
        outline(doc).nodes.contains_key(of),
        !within(doc, moved, of),
    ensures
        ({
            let a = outline(doc).ancestor_at_depth(of, depth);
            &&& outline(doc).nodes.contains_key(a)
            &&& !within(doc, moved, a)
            &&& match outline(doc).nodes[a].parent {
                Some(p) => outline(doc).nodes.contains_key(p) && !within(doc, moved, p),
                None => true,
            }
        }),
    decreases of,
{
    let tree = outline(doc);
    let ranks = item_ranks(doc);
    lemma_outline_wf(doc);
    lemma_item_lines(doc);
    lemma_nearest_shallower(ranks, of - 1, of - 1);
    lemma_next_at_most(ranks, moved - 1, moved as int);
    match tree.nodes[of].parent {
        Some(p) => {
            if within(doc, moved, p) {
                let e = next_at_most(ranks, moved - 1, moved as int);
                assert(of - 1 >= e);
                assert(ranks[e] <= ranks[moved - 1]);
                assert(ranks[p - 1] < ranks[of - 1]);
                if p != moved {
                    assert(ranks[p - 1] > ranks[moved - 1]);
                }
                if of - 1 > e {
                    assert(ranks[e] >= ranks[of - 1]);
                }
                assert(false);
            }
            if tree.nodes[of].depth > depth && p < of {
                lemma_climb_outside(doc, moved, p, depth);
            }
        },
        None => {},
    }
}

/// Dropping a node into any gap of the flat list without its own subtree
/// names a parent outside that subtree.
pub proof fn lemma_drop_target_is_outside(doc: Seq<Seq<char>>, moved: u64, slot: int)
    requires
        doc.len() <= u64::MAX,
        outline(doc).nodes.contains_key(moved),
        slot >= 0,
    ensures
        ({
            let tree = outline(doc);
            let (parent, index) = tree.resolve(tree.flat(Some(moved)), slot);
            parent is Some ==> tree.nodes.contains_key(parent->0) && !within(
                doc,
                moved,
                parent->0,
            )
        }),
{
    let tree = outline(doc);
    let flat = tree.flat(Some(moved));
    let n = item_lines(doc).len() as int;
    lemma_item_lines(doc);
    lemma_flat_is_document_order(doc, Some(moved));
    let hi = next_at_most(item_ranks(doc), moved - 1, moved as int);
    if 0 < slot <= flat.len() {
        lemma_ids_outside(0, n, moved - 1, hi, slot - 1);
        let above = flat[slot - 1];
        let below_depth = if slot < flat.len() {
            tree.nodes[flat[slot]].depth
        } else {
            tree.nodes[above].depth
        };
        lemma_climb_outside(doc, moved, above, below_depth);
    }
}

/// A line that is an item neither opens a code fence nor closes one.
pub(crate) proof fn lemma_item_is_no_fence(line: Seq<char>, open: Option<Fence>)
    requires
        item_of(line) is Some,
    ensures
        next_fence(open, line) == open,
{
    let s = trim_start(line);
    assert(s.len() > 0 && (s[0] == '#' || is_bullet(s[0])));
}

proof fn lemma_same_item_lines(a: Seq<Seq<char>>, b: Seq<Seq<char>>)
    requires
        a.len() == b.len(),
        forall|i: int|
            0 <= i < a.len() ==> #[trigger] a[i] == b[i] || (item_of(a[i]) is Some && item_of(b[i])
                is Some),
    ensures
        item_lines(a) == item_lines(b),
        fence_after(a) == fence_after(b),
    decreases a.len(),
{
    if a.len() > 0 {
        assert(a[a.len() - 1] == a.last());
        assert(b[b.len() - 1] == b.last());
        assert forall|i: int| 0 <= i < a.len() - 1 implies #[trigger] a.drop_last()[i]
            == b.drop_last()[i] || (item_of(a.drop_last()[i]) is Some && item_of(b.drop_last()[i])
            is Some) by {
            assert(a[i] == a.drop_last()[i]);
        }
        lemma_same_item_lines(a.drop_last(), b.drop_last());
        if a.last() != b.last() {
            lemma_item_is_no_fence(a.last(), fence_after(a.drop_last()));
            lemma_item_is_no_fence(b.last(), fence_after(a.drop_last()));
        }
    }
}

proof fn lemma_same_blanks(a: Seq<Seq<char>>, b: Seq<Seq<char>>, start: int, end: int)
    requires
        0 <= end <= a.len() == b.len(),
        forall|i: int| 0 <= i < a.len() ==> is_blank(#[trigger] a[i]) == is_blank(b[i]),
    ensures
        before_blanks(a, start, end) == before_blanks(b, start, end),
    decreases end,
{
    if end > start + 1 && end > 0 && is_blank(a[end - 1]) {
        lemma_same_blanks(a, b, start, end - 1);
    }
}

/// Replacing a node's text changes that node's text and nothing else of the
/// outline.
pub proof fn lemma_set_text_changes_one_text(doc: Seq<Seq<char>>, id: u64, text: Seq<char>)
    requires
        doc.len() <= u64::MAX,
        outline(doc).nodes.contains_key(id),
    ensures
        ({
            let node = outline(doc).nodes[id];
            let after = outline(doc.update(node.line, node_line(node.kind, node.indent, text)));
            let kept = match node.kind {
                Kind::Heading(_) => trim(text),
                Kind::ListItem(_) => trim_start(text),
            };
            &&& after.roots == outline(doc).roots
            &&& after.nodes == outline(doc).nodes.insert(id, OutlineNode { text: kept, ..node })
        }),
{
    let tree = outline(doc);
    let node = tree.nodes[id];
    let line = node_line(node.kind, node.indent, text);
    let new = doc.update(node.line, line);
    let at = item_lines(doc);
    lemma_outline_wf(doc);
    lemma_item_lines(doc);
    match node.kind {
        Kind::Heading(level) => lemma_heading_line_reads_back(level as nat, text),
        Kind::ListItem(bullet) => lemma_list_item_line_reads_back(
            node.indent as nat,
            bullet,
            text,
        ),
    }
    lemma_item_is_not_blank(doc[node.line]);
    lemma_item_is_not_blank(line);
    lemma_same_item_lines(doc, new);
    assert forall|k: int, j: int| 0 <= j < k < at.len() implies at[j] != at[k] by {}
    assert(item_ranks(new) =~= item_ranks(doc));
    let kept = match node.kind {
        Kind::Heading(_) => trim(text),
        Kind::ListItem(_) => trim_start(text),
    };
    let expected = tree.nodes.insert(id, OutlineNode { text: kept, ..node });
    assert forall|k: u64| 1 <= k <= at.len() implies #[trigger] outline(new).nodes[k]
        == expected[k] by {
        let ranks = item_ranks(doc);
        lemma_next_at_most(ranks, k - 1, k as int);
        let next = next_at_most(ranks, k - 1, k as int);
        let raw = if next < at.len() {
            at[next]
        } else {
            doc.len() as int
        };
        lemma_same_blanks(doc, new, at[k - 1], raw);
    }
    assert(outline(new).nodes =~= expected);
}

proof fn lemma_walk_ids(tree: Tree, above: int, ids: Seq<u64>, skip: Option<u64>)
    requires
        tree.wf(),
        forall|i: int| 0 <= i < ids.len() ==> tree.nodes.contains_key(#[trigger] ids[i]),
    ensures
        forall|k: int|
            0 <= k < tree.walk(above, ids, skip).len() ==> tree.nodes.contains_key(
                #[trigger] tree.walk(above, ids, skip)[k],
            ),
    decreases u64::MAX - above, ids.len(),
{
    if ids.len() > 0 {
        let id = ids.last();
        lemma_walk_ids(tree, above, ids.drop_last(), skip);
        if !(skip == Some(id) || id <= above) {
            let kids = tree.nodes[id].children;
            assert forall|i: int| 0 <= i < kids.len() implies tree.nodes.contains_key(
                #[trigger] kids[i],
            ) by {
                assert(tree.nodes.contains_key(id));
                assert(tree.nodes[id].children.contains(kids[i]));
            }
            lemma_walk_ids(tree, id as int, kids, skip);
            let before = tree.walk(above, ids.drop_last(), skip);
            let under = tree.walk(id as int, kids, skip);
            let all = tree.walk(above, ids, skip);
            assert(all == before + seq![id] + under);
            assert forall|k: int| 0 <= k < all.len() implies tree.nodes.contains_key(
                #[trigger] all[k],
            ) by {
                if k < before.len() {
                    assert(all[k] == before[k]);
                } else if k == before.len() {
                    assert(all[k] == id);
                } else {
                    assert(all[k] == under[k - before.len() - 1]);
                }
            }
        }
    }
}

/// Every id of a tree's flat list is in the tree.
pub proof fn lemma_flat_ids(tree: Tree, skip: Option<u64>)
    requires
        tree.wf(),
    ensures
        forall|k: int|
            0 <= k < tree.flat(skip).len() ==> tree.nodes.contains_key(
                #[trigger] tree.flat(skip)[k],
            ),
{
    assert forall|i: int| 0 <= i < tree.roots.len() implies tree.nodes.contains_key(
        #[trigger] tree.roots[i],
    ) by {
        assert(tree.roots.contains(tree.roots[i]));
    }
    lemma_walk_ids(tree, 0, tree.roots, skip);
}

proof fn lemma_first_index(s: Seq<u64>, x: u64)
    requires
        s.contains(x),
    ensures
        0 <= first_index(s, x) < s.len(),
        s[first_index(s, x)] == x,
    decreases s.len(),
{
    if s[0] != x {
        let i = choose|i: int| 0 <= i < s.len() && s[i] == x;
        assert(s.skip(1)[i - 1] == x);
        lemma_first_index(s.skip(1), x);
    }
}

proof fn lemma_all_standing(s: Seq<u64>, flat: Seq<u64>)
    requires
        forall|i: int| 0 <= i < s.len() ==> flat.contains(#[trigger] s[i]),
    ensures
        s.filter(standing_in(flat)) == s,
    decreases s.len(),
{
    reveal(Seq::filter);
    if s.len() > 0 {
        assert forall|i: int| 0 <= i < s.drop_last().len() implies flat.contains(
            #[trigger] s.drop_last()[i],
        ) by {
            assert(s.drop_last()[i] == s[i]);
        }
        lemma_all_standing(s.drop_last(), flat);
        assert(flat.contains(s[s.len() - 1]));
        assert(s.drop_last().push(s.last()) =~= s);
    }
}

/// An enclosing item that is shallower than `n` is found above any item
/// that is not.
proof fn lemma_shallower_is_above(ranks: Seq<int>, n: int, x: int)
    requires
        0 <= x < n < ranks.len(),
        ranks[x] >= ranks[n],
    ensures
        ({
            let r = nearest_shallower(ranks, n, x + 1);
            -1 <= r < x && (r >= 0 ==> depth_index(ranks, r) < depth_index(ranks, x))
        }),
    decreases x,
{
    lemma_step_to_parent(ranks, n, x);
    lemma_nearest_shallower(ranks, x, x);
    let q = parent_index(ranks, x);
    if q >= 0 && ranks[q] >= ranks[n] {
        lemma_shallower_is_above(ranks, n, q);
    }
}

/// Climbing from a row to the depth of one below it gives the sibling of
/// that row which stands before it; all rows in between are under the
/// sibling.
#[verifier::rlimit(40)]
#[verifier::spinoff_prover]
proof fn lemma_climb_to_sibling(doc: Seq<Seq<char>>, n: int, x: int)
    requires
        doc.len() <= u64::MAX,
        0 <= x < n < item_ranks(doc).len(),
        depth_index(item_ranks(doc), x) >= depth_index(item_ranks(doc), n),
        parent_index(item_ranks(doc), n) == nearest_shallower(item_ranks(doc), n, x + 1),
    ensures
        ({
            let ranks = item_ranks(doc);
            let a = outline(doc).ancestor_at_depth((x + 1) as u64, depth_index(ranks, n));
            &&& 1 <= a <= x + 1
            &&& parent_index(ranks, a - 1) == parent_index(ranks, n)
            &&& forall|c: int| a <= c <= x ==> ranks[a - 1] < #[trigger] ranks[c]
        }),
    decreases x,
{
    let ranks = item_ranks(doc);
    let tree = outline(doc);
    let d = depth_index(ranks, n);
    let id = (x + 1) as u64;
    lemma_item_lines(doc);
    lemma_nearest_shallower(ranks, x, x);
    lemma_nearest_shallower(ranks, n, n);
    lemma_depth_nonneg(ranks, n);
    assert(tree.nodes[id] == outline_node(doc, x));
    let q = parent_index(ranks, x);
    if ranks[x] < ranks[n] {
        assert(parent_index(ranks, n) == x);
        assert(false);
    }
    lemma_step_to_parent(ranks, n, x);
    if depth_index(ranks, x) > d {
        assert(q >= 0);
        lemma_climb_to_sibling(doc, n, q);
        let a = tree.ancestor_at_depth((q + 1) as u64, d);
        assert(tree.nodes[id].parent == Some((q + 1) as u64));
        assert(tree.ancestor_at_depth(id, d) == a);
        assert forall|c: int| a <= c <= x implies ranks[a - 1] < #[trigger] ranks[c] by {
            if c > q {
                assert(ranks[c] >= ranks[x]);
                assert(ranks[q] < ranks[x]);
                if a - 1 < q {
                    assert(ranks[a - 1] < ranks[q]);
                }
            }
        }
    } else {
        assert(tree.ancestor_at_depth(id, d) == id);
        if q >= 0 && ranks[q] >= ranks[n] {
            lemma_shallower_is_above(ranks, n, q);
            let r = parent_index(ranks, n);
            if r >= 0 {
                assert(d == 1 + depth_index(ranks, r));
            }
            lemma_depth_nonneg(ranks, q);
            assert(false);
        }
    }
}

/// Which place a gap between two rows of the whole list names. Above all
/// rows it is the first of the roots. Over a row that is deeper than the one
/// above the gap it is the first under that one. Over any other row it is
/// the place of that row. Below all rows it is the place behind the last
/// row.
#[verifier::rlimit(60)]
#[verifier::spinoff_prover]
pub proof fn lemma_gap_names_the_row_below(doc: Seq<Seq<char>>, slot: int)
    requires
        doc.len() <= u64::MAX,
        0 <= slot <= outline(doc).flat(None).len(),
    ensures
        ({
            let tree = outline(doc);
            let flat = tree.flat(None);
            let (parent, index) = tree.resolve(flat, slot);
            if slot == 0 {
                parent is None && index == 0
            } else {
                let p = flat[slot - 1];
                if slot == flat.len() {
                    parent == tree.nodes[p].parent && index == tree.children(parent).len()
                } else {
                    let n = flat[slot];
                    if tree.nodes[n].depth > tree.nodes[p].depth {
                        parent == Some(p) && index == 0
                    } else {
                        &&& parent == tree.nodes[n].parent
                        &&& 0 <= index < tree.children(parent).len()
                        &&& tree.children(parent)[index] == n
                    }
                }
            }
        }),
{
    let tree = outline(doc);
    let flat = tree.flat(None);
    let ranks = item_ranks(doc);
    let count = ranks.len() as int;
    lemma_item_lines(doc);
    lemma_outline_wf(doc);
    lemma_flat_is_document_order(doc, None);
    lemma_all_ids(count);
    if slot > 0 {
        let p = flat[slot - 1];
        assert(p == slot);
        assert(tree.nodes[p] == outline_node(doc, slot - 1));
        let d = if slot < count {
            assert(tree.nodes[flat[slot]] == outline_node(doc, slot));
            tree.nodes[flat[slot]].depth
        } else {
            tree.nodes[p].depth
        };
        if d <= tree.nodes[p].depth {
            let a = tree.ancestor_at_depth(p, d);
            if slot < count {
                lemma_climb_to_sibling(doc, slot, slot - 1);
            }
            assert(tree.nodes[a] == outline_node(doc, a - 1));
            let above = parent_index(ranks, a - 1);
            lemma_nearest_shallower(ranks, a - 1, a - 1);
            let all = children_upto(ranks, above, count);
            lemma_children(ranks, above, count);
            assert(tree.children(tree.nodes[a].parent) == all);
            assert(all.contains(a));
            lemma_first_index(all, a);
            let i = first_index(all, a);
            assert forall|k: int| 0 <= k < all.take(i + 1).len() implies flat.contains(
                #[trigger] all.take(i + 1)[k],
            ) by {
                assert(all.contains(all[k]));
                assert(flat[all[k] - 1] == all[k]);
            }
            lemma_all_standing(all.take(i + 1), flat);
            if i + 1 < all.len() {
                let c = all[i + 1];
                assert(all.contains(c));
                assert(all[i] < c);
                lemma_nearest_shallower(ranks, c - 1, c - 1);
                if slot < count && c <= slot {
                    assert(ranks[a - 1] < ranks[c - 1]);
                    assert(false);
                }
            }
            if slot < count {
                let n = (slot + 1) as u64;
                assert(all.contains(n));
                let j = choose|j: int| 0 <= j < all.len() && all[j] == n;
                if j <= i {
                    if j < i {
                        assert(all[j] < all[i]);
                    }
                    assert(false);
                }
                if j > i + 1 {
                    assert(all[i + 1] < all[j]);
                    assert(false);
                }
            }
        }
    }
}

proof fn lemma_ids_around(n: int, lo: int, hi: int)
    requires
        0 <= lo <= hi <= n <= u64::MAX || (0 <= n < hi && 0 <= lo <= hi && n <= u64::MAX),
    ensures
        hi <= n ==> ids_between(0, n, lo, hi).len() == n - (hi - lo),
        n < hi ==> ids_between(0, n, lo, hi).len() == if n < lo {
            n
        } else {
            lo
        },
        forall|k: int|
            0 <= k < ids_between(0, n, lo, hi).len() ==> #[trigger] ids_between(0, n, lo, hi)[k]
                == if k < lo {
                k + 1
            } else {
                k + 1 + (hi - lo)
            },
    decreases n,
{
    if n > 0 {
        lemma_ids_around(n - 1, lo, hi);
    }
}

proof fn lemma_same_filter(s: Seq<u64>, flat: Seq<u64>, held: u64)
    requires
        forall|i: int| 0 <= i < s.len() ==> (flat.contains(#[trigger] s[i]) <==> s[i] != held),
    ensures
        s.filter(standing_in(flat)) == s.filter(other_than(held)),
    decreases s.len(),
{
    reveal(Seq::filter);
    if s.len() > 0 {
        let rest = s.drop_last();
        assert forall|i: int| 0 <= i < rest.len() implies (flat.contains(#[trigger] rest[i])
            <==> rest[i] != held) by {
            assert(rest[i] == s[i]);
        }
        lemma_same_filter(rest, flat, held);
        assert(s[s.len() - 1] == s.last());
    }
}

/// What a filter leaves starts with the first id that passes it, whether it
/// comes first or behind the one that does not.
proof fn lemma_filter_starts(s: Seq<u64>, held: u64, n: u64)
    requires
        n != held,
        s.len() > 0,
        s[0] == n || (s[0] == held && s.len() > 1 && s[1] == n),
    ensures
        s.filter(other_than(held)).len() > 0,
        s.filter(other_than(held))[0] == n,
{
    let k: int = if s[0] == n {
        1
    } else {
        2
    };
    let (head, tail) = (s.take(k), s.skip(k));
    assert(s =~= head + tail);
    Seq::filter_distributes_over_add(head, tail, other_than(held));
    assert(head.filter(other_than(held)) == seq![n]) by {
        reveal(Seq::filter);
        let one = head.drop_last();
        assert(head.last() == n);
        if k == 2 {
            let none = one.drop_last();
            assert(one.last() == held);
            assert(none.len() == 0);
            assert(none.filter(other_than(held)) == none);
            assert(one.filter(other_than(held)) == none);
            assert(none =~= Seq::<u64>::empty());
        } else {
            assert(one =~= Seq::<u64>::empty());
        }
        assert(head.filter(other_than(held)) =~= seq![n]);
    }
}

/// Where the rows are that a held node leaves in the list.
proof fn lemma_rows_left(doc: Seq<Seq<char>>, held: u64)
    requires
        doc.len() <= u64::MAX,
        outline(doc).nodes.contains_key(held),
    ensures
        ({
            let ranks = item_ranks(doc);
            let flat = outline(doc).flat(Some(held));
            let (lo, hi) = (held - 1, next_at_most(ranks, held - 1, held as int));
            &&& 0 <= lo < hi <= ranks.len() <= u64::MAX
            &&& flat.len() == ranks.len() - (hi - lo)
            &&& forall|k: int|
                0 <= k < flat.len() ==> #[trigger] flat[k] == if k < lo {
                    k + 1
                } else {
                    k + 1 + (hi - lo)
                }
            &&& forall|k: int| lo < k < hi ==> #[trigger] ranks[k] > ranks[lo]
            &&& hi < ranks.len() ==> ranks[hi] <= ranks[lo]
        }),
{
    let ranks = item_ranks(doc);
    lemma_item_lines(doc);
    lemma_outline_wf(doc);
    let (lo, hi) = (held - 1, next_at_most(ranks, held - 1, held as int));
    lemma_next_at_most(ranks, lo, lo + 1);
    lemma_flat_is_document_order(doc, Some(held));
    lemma_ids_around(ranks.len() as int, lo, hi);
}

/// Of the children of a node outside a held subtree only the held node
/// itself is not in the list.
proof fn lemma_children_left(doc: Seq<Seq<char>>, held: u64, up: int, c: u64)
    requires
        doc.len() <= u64::MAX,
        outline(doc).nodes.contains_key(held),
        1 <= c <= item_ranks(doc).len(),
        parent_index(item_ranks(doc), c - 1) == up,
        up >= 0 ==> !within(doc, held, (up + 1) as u64),
    ensures
        outline(doc).flat(Some(held)).contains(c) <==> c != held,
{
    let ranks = item_ranks(doc);
    let flat = outline(doc).flat(Some(held));
    let (lo, hi) = (held - 1, next_at_most(ranks, held - 1, held as int));
    lemma_rows_left(doc, held);
    lemma_nearest_shallower(ranks, c - 1, c - 1);
    if lo < c - 1 < hi {
        assert(ranks[lo] < ranks[c - 1]);
        assert(up >= lo);
        assert(false);
    }
    if c - 1 < lo {
        assert(flat[c - 1] == c);
    } else if c - 1 >= hi {
        assert(flat[c - 1 - (hi - lo)] == c);
    }
}

proof fn lemma_only_held_between(doc: Seq<Seq<char>>, held: u64, slot: int, up: int, c: u64)
    requires
        doc.len() <= u64::MAX,
        outline(doc).nodes.contains_key(held),
        0 < slot < outline(doc).flat(Some(held)).len(),
        outline(doc).flat(Some(held))[slot - 1] < c < outline(doc).flat(Some(held))[slot],
        1 <= c <= item_ranks(doc).len(),
        parent_index(item_ranks(doc), c - 1) == up,
        up >= 0 ==> !within(doc, held, (up + 1) as u64),
    ensures
        c == held,
{
    let flat = outline(doc).flat(Some(held));
    lemma_rows_left(doc, held);
    lemma_children_left(doc, held, up, c);
    if c != held {
        let m = choose|m: int| 0 <= m < flat.len() && flat[m] == c;
        assert(flat[m] == c);
        assert(false);
    }
}

/// The sibling that a gap comes behind, and that only the held node can
/// stand between it and the row below the gap.
#[verifier::rlimit(80)]
#[verifier::spinoff_prover]
proof fn lemma_gap_between(doc: Seq<Seq<char>>, held: u64, slot: int)
    requires
        doc.len() <= u64::MAX,
        outline(doc).nodes.contains_key(held),
        0 < slot < outline(doc).flat(Some(held)).len(),
        ({
            let tree = outline(doc);
            let flat = tree.flat(Some(held));
            tree.nodes[flat[slot]].depth <= tree.nodes[flat[slot - 1]].depth
        }),
    ensures
        ({
            let tree = outline(doc);
            let ranks = item_ranks(doc);
            let flat = tree.flat(Some(held));
            let n = flat[slot];
            let a = tree.ancestor_at_depth(flat[slot - 1], tree.nodes[n].depth);
            let up = parent_index(ranks, a - 1);
            &&& 1 <= a < n <= ranks.len()
            &&& parent_index(ranks, n - 1) == up
            &&& up >= 0 ==> !within(doc, held, (up + 1) as u64)
            &&& forall|c: u64|
                a < c < n && #[trigger] parent_index(ranks, c - 1) == up ==> c == held
        }),
{
    let tree = outline(doc);
    let flat = tree.flat(Some(held));
    let ranks = item_ranks(doc);
    lemma_item_lines(doc);
    lemma_rows_left(doc, held);
    let (lo, hi) = (held - 1, next_at_most(ranks, held - 1, held as int));
    let (above, n) = (flat[slot - 1], flat[slot]);
    let (x, y) = (above - 1, n - 1);
    assert(tree.nodes[above] == outline_node(doc, x));
    assert(tree.nodes[n] == outline_node(doc, y));
    if slot == lo {
        assert forall|k: int| x + 1 <= k < y implies #[trigger] ranks[k] >= ranks[y] by {
            assert(k == lo || ranks[k] > ranks[lo]);
        }
        lemma_skip_deeper(ranks, y, x + 1, y);
    }
    lemma_climb_to_sibling(doc, y, x);
    let d = depth_index(ranks, y);
    let a = tree.ancestor_at_depth(above, d);
    lemma_climb_outside(doc, held, above, d);
    assert(tree.nodes[a] == outline_node(doc, a - 1));
    let up = parent_index(ranks, a - 1);
    lemma_nearest_shallower(ranks, a - 1, a - 1);
    assert forall|c: u64| a < c < n && #[trigger] parent_index(ranks, c - 1) == up implies c
        == held by {
        lemma_nearest_shallower(ranks, c - 1, c - 1);
        if c - 1 <= x {
            assert(ranks[a - 1] < ranks[c - 1]);
            assert(false);
        }
        lemma_only_held_between(doc, held, slot, up, c);
    }
}

/// Behind `a` in a rising list, with only the held id in between, comes `n`:
/// the list without the held id has `n` where those up to `a` end.
proof fn lemma_place_in_list(all: Seq<u64>, flat: Seq<u64>, held: u64, a: u64, n: u64)
    requires
        forall|x: int, y: int| 0 <= x < y < all.len() ==> #[trigger] all[x] < #[trigger] all[y],
        all.contains(a),
        all.contains(n),
        a < n,
        n != held,
        forall|k: int| 0 <= k < all.len() ==> (flat.contains(#[trigger] all[k]) <==> all[k] != held),
        forall|k: int| 0 <= k < all.len() && a < #[trigger] all[k] < n ==> all[k] == held,
    ensures
        ({
            let index = all.take(first_index(all, a) + 1).filter(standing_in(flat)).len();
            let others = all.filter(other_than(held));
            index < others.len() && others[index as int] == n
        }),
{
    lemma_first_index(all, a);
    let i = first_index(all, a);
    let (first, rest) = (all.take(i + 1), all.skip(i + 1));
    assert forall|k: int| 0 <= k < first.len() implies (flat.contains(#[trigger] first[k])
        <==> first[k] != held) by {
        assert(first[k] == all[k]);
    }
    lemma_same_filter(first, flat, held);
    assert(all =~= first + rest);
    Seq::filter_distributes_over_add(first, rest, other_than(held));
    let j = choose|j: int| 0 <= j < all.len() && all[j] == n;
    if j < i {
        assert(all[j] < all[i]);
    }
    assert(j > i);
    if j > i + 1 {
        assert(all[i] < all[i + 1] && all[i + 1] < all[j]);
        assert(all[i + 1] == held);
        if j > i + 2 {
            assert(all[i + 1] < all[i + 2] && all[i + 2] < all[j]);
            assert(all[i + 2] == held);
        }
        assert(rest[1] == all[i + 2]);
    }
    assert(rest[0] == all[i + 1]);
    lemma_filter_starts(rest, held, n);
}

/// A node that is held and dropped over a row which is no deeper than the
/// one above the gap takes that row's place: among the children of that
/// row's parent, counted without the held node, it goes where that row is.
#[verifier::rlimit(80)]
#[verifier::spinoff_prover]
pub proof fn lemma_drop_takes_the_place_of_the_row_below(
    doc: Seq<Seq<char>>,
    held: u64,
    slot: int,
)
    requires
        doc.len() <= u64::MAX,
        outline(doc).nodes.contains_key(held),
        0 < slot < outline(doc).flat(Some(held)).len(),
        ({
            let tree = outline(doc);
            let flat = tree.flat(Some(held));
            tree.nodes[flat[slot]].depth <= tree.nodes[flat[slot - 1]].depth
        }),
    ensures
        ({
            let tree = outline(doc);
            let flat = tree.flat(Some(held));
            let (parent, index) = tree.resolve(flat, slot);
            let others = tree.other_children(parent, held);
            &&& parent == tree.nodes[flat[slot]].parent
            &&& 0 <= index < others.len()
            &&& others[index] == flat[slot]
        }),
{
    let tree = outline(doc);
    let flat = tree.flat(Some(held));
    let ranks = item_ranks(doc);
    let count = ranks.len() as int;
    lemma_item_lines(doc);
    lemma_gap_between(doc, held, slot);
    lemma_rows_left(doc, held);
    let n = flat[slot];
    let a = tree.ancestor_at_depth(flat[slot - 1], tree.nodes[n].depth);
    assert(tree.nodes[a] == outline_node(doc, a - 1));
    assert(tree.nodes[n] == outline_node(doc, n - 1));
    let up = parent_index(ranks, a - 1);
    lemma_nearest_shallower(ranks, a - 1, a - 1);
    let all = children_upto(ranks, up, count);
    lemma_children(ranks, up, count);
    assert(tree.children(tree.nodes[a].parent) == all);
    assert(all.contains(a));
    assert(all.contains(n));
    assert forall|k: int| 0 <= k < all.len() implies (flat.contains(#[trigger] all[k]) <==> all[k]
        != held) by {
        assert(all.contains(all[k]));
        lemma_children_left(doc, held, up, all[k]);
    }
    assert forall|k: int| 0 <= k < all.len() && a < #[trigger] all[k] < n implies all[k] == held by {
        assert(all.contains(all[k]));
        assert(parent_index(ranks, all[k] - 1) == up);
    }
    lemma_children_left(doc, held, up, n);
    assert(flat.contains(n));
    lemma_place_in_list(all, flat, held, a, n);
}

proof fn lemma_all_ids(n: int)
    requires
        0 <= n <= u64::MAX,
    ensures
        ids_between(0, n, 0, 0).len() == n,
        forall|k: int| 0 <= k < n ==> #[trigger] ids_between(0, n, 0, 0)[k] == k + 1,
    decreases n,
{
    if n > 0 {
        lemma_all_ids(n - 1);
    }
}

/// What stands in a code fence is never read as a node: the fence belongs,
/// line for line, to the node that it stands under.
pub proof fn lemma_no_node_in_a_fence(doc: Seq<Seq<char>>, k: int)
    requires
        0 <= k < item_lines(doc).len(),
    ensures
        fence_after(doc.take(item_lines(doc)[k])) is None,
    decreases doc.len(),
{
    let before = doc.drop_last();
    lemma_item_lines(before);
    if k < item_lines(before).len() {
        lemma_no_node_in_a_fence(before, k);
        let at = item_lines(doc)[k];
        assert(before.take(at) =~= doc.take(at));
    } else {
        assert(doc.take(doc.len() - 1) =~= before);
    }
}

} // verus!

//! Markdown as a tree: ATX headings and list items become nodes, nested
//! by heading level and list indentation. A heading always breaks out to
//! heading-level context (a list item is never a heading's parent).
//!
//! A node's line range spans from its own line up to the next node at the
//! same depth or shallower, so blank lines, prose, and code fences between
//! nodes travel with whichever node they belong to, without being parsed.
//! A move cuts that whole range out and splices it back in elsewhere; only
//! the lines that change depth are rewritten.

use std::collections::HashMap;

use vstd::prelude::*;

use crate::outline::{
    after_marks, before_blanks, children_upto, cut, depth_index, depth_rank, end_line, fence_after,
    fence_marks, heading_line, heading_of, id_of_index, is_blank, is_bullet, item_at, item_lines,
    item_of, item_ranks, landing, leading_run, lemma_item_lines, lemma_item_lines_prefix,
    lemma_nearest_shallower, lemma_no_early_children, lemma_step_to_parent, list_item_line,
    list_item_of, moved_doc, nearest_shallower, next_at_most, next_fence, node_line, outline_node,
    outline_nodes, outline_roots, parent_index, shifted_block, shifted_line, Fence, Item,
    OutlineNode,
};
use crate::outline_laws::lemma_outline_wf;
use crate::text::{
    count_leading_space, find_trimmed, push_repeated, string_of, to_chars, trim_start, utf8_bytes,
    utf8_width, views,
};

verus! {

broadcast use vstd::std_specs::hash::group_hash_axioms;

pub type NodeId = u64;

#[derive(Debug, Clone, Copy, PartialEq, Eq, Structural)]
pub enum Kind {
    Heading(u8),
    ListItem(char),
}

#[derive(Debug)]
pub struct MNode {
    pub kind: Kind,
    /// Leading column count; meaningful for list items, always 0 for headings.
    pub indent: u16,
    pub text: String,
    pub line: usize,
    /// Exclusive end of this node's whole subtree, in source lines.
    pub end: usize,
    pub parent: Option<NodeId>,
    pub children: Vec<NodeId>,
    pub depth: usize,
}

impl View for MNode {
    type V = OutlineNode;

    open spec fn view(&self) -> OutlineNode {
        OutlineNode {
            kind: self.kind,
            indent: self.indent,
            text: self.text@,
            line: self.line as int,
            end: self.end as int,
            parent: self.parent,
            children: self.children@,
            depth: self.depth as int,
        }
    }
}

#[derive(Debug)]
pub struct MindTree {
    pub nodes: HashMap<NodeId, MNode>,
    pub roots: Vec<NodeId>,
}

/// A tree as mathematics: the nodes by id, and the ids of the outermost.
pub ghost struct Tree {
    pub nodes: Map<u64, OutlineNode>,
    pub roots: Seq<u64>,
}

impl View for MindTree {
    type V = Tree;

    open spec fn view(&self) -> Tree {
        Tree {
            nodes: Map::new(
                |id: u64| self.nodes@.contains_key(id),
                |id: u64| self.nodes@[id]@,
            ),
            roots: self.roots@,
        }
    }
}

/// The tree of a document.
pub open spec fn outline(doc: Seq<Seq<char>>) -> Tree {
    Tree { nodes: outline_nodes(doc), roots: outline_roots(doc) }
}

pub(crate) fn count_run(v: &Vec<char>, from: usize, c: char) -> (r: usize)
    requires
        from <= v@.len(),
    ensures
        r == leading_run(v@.skip(from as int), c),
        r <= v@.len() - from,
{
    let ghost whole = v@.skip(from as int);
    let mut i: usize = from;
    proof {
        assert(whole.skip(0) =~= whole);
    }
    while i < v.len() && v[i] == c
        invariant
            from <= i <= v@.len(),
            whole == v@.skip(from as int),
            leading_run(whole, c) == (i - from) + leading_run(whole.skip(i - from), c),
        decreases v@.len() - i,
    {
        proof {
            assert(whole.skip(i - from).skip(1) =~= whole.skip(i + 1 - from));
            assert(whole.skip(i - from)[0] == v@[i as int]);
        }
        i += 1;
    }
    proof {
        let rest = whole.skip(i - from);
        if i < v@.len() {
            assert(rest[0] == v@[i as int]);
        }
        assert(leading_run(rest, c) == 0);
    }
    i - from
}

/// Reads a line as an ATX heading.
pub fn parse_heading(line: &str) -> (r: Option<(u8, String)>)
    ensures
        match r {
            Some((level, text)) => heading_of(line@) == Some((level, text@)),
            None => heading_of(line@) is None,
        },
{
    let v: Vec<char> = to_chars(line);
    let n: usize = v.len();
    let lead: usize = count_leading_space(&v, 0, n);
    proof {
        assert(v@.subrange(0, n as int) =~= line@);
    }
    let hashes: usize = count_run(&v, lead, '#');
    let after: usize = lead + hashes;
    let ghost rest = v@.skip(lead as int).skip(hashes as int);
    proof {
        assert(rest =~= v@.subrange(after as int, n as int));
    }
    if hashes == 0 || hashes > 6 {
        return None;
    }
    if after < n && v[after] != ' ' {
        proof {
            assert(rest[0] == v@[after as int]);
        }
        return None;
    }
    let (a, b) = find_trimmed(&v, after, n);
    let text: String = string_of(&v, a, b);
    Some((hashes as u8, text))
}

/// How many bytes the first `n` characters of `v` take, modulo 2^16.
fn byte_count(v: &Vec<char>, n: usize) -> (r: u16)
    requires
        n <= v@.len(),
    ensures
        r as nat == utf8_bytes(v@.take(n as int)) % 65536,
{
    let mut total: u32 = 0;
    let mut i: usize = 0;
    proof {
        assert(v@.take(0) =~= Seq::<char>::empty());
    }
    while i < n
        invariant
            i <= n <= v@.len(),
            total < 65536,
            total as nat == utf8_bytes(v@.take(i as int)) % 65536,
        decreases n - i,
    {
        let c: u32 = v[i] as u32;
        let w: u32 = if c < 0x80 {
            1
        } else if c < 0x800 {
            2
        } else if c < 0x10000 {
            3
        } else {
            4
        };
        total = (total + w) % 65536;
        i += 1;
        proof {
            assert(v@.take(i as int).drop_last() =~= v@.take(i - 1));
            assert(w == utf8_width(v@[i - 1]));
        }
    }
    total as u16
}

/// Reads a line as a list item.
pub fn parse_list_item(line: &str) -> (r: Option<(u16, char, String)>)
    ensures
        match r {
            Some((indent, bullet, text)) => list_item_of(line@) == Some((indent, bullet, text@)),
            None => list_item_of(line@) is None,
        },
{
    let v: Vec<char> = to_chars(line);
    let n: usize = v.len();
    let lead: usize = count_leading_space(&v, 0, n);
    proof {
        assert(v@.subrange(0, n as int) =~= line@);
    }
    let indent: u16 = byte_count(&v, lead);
    let ghost s = v@.skip(lead as int);
    if lead >= n {
        return None;
    }
    let bullet: char = v[lead];
    proof {
        assert(s[0] == bullet);
    }
    if bullet != '-' && bullet != '*' && bullet != '+' {
        return None;
    }
    proof {
        assert(s.skip(1) =~= v@.subrange(lead + 1, n as int));
    }
    if lead + 1 >= n || v[lead + 1] != ' ' {
        return None;
    }
    let more: usize = count_leading_space(&v, lead + 1, n);
    let text: String = string_of(&v, lead + 1 + more, n);
    proof {
        assert(text@ =~= trim_start(s.skip(1)));
    }
    Some((indent, bullet, text))
}

/// Headings sort by level; any list item is deeper than any heading; list
/// items among themselves sort by indent. One tuple order captures all of
/// it.
pub fn depth_key(kind: Kind, indent: u16) -> (r: (u8, u16))
    ensures
        r == match kind {
            Kind::Heading(level) => (0u8, level as u16),
            Kind::ListItem(_) => (1u8, indent),
        },
        r.0 * 65536 + r.1 == depth_rank(kind, indent),
{
    match kind {
        Kind::Heading(level) => (0, level as u16),
        Kind::ListItem(_) => (1, indent),
    }
}

/// Whether `a` sorts at least as deep as `b`.
fn at_least(a: (u8, u16), b: (u8, u16)) -> (r: bool)
    requires
        a.0 <= 1,
        b.0 <= 1,
    ensures
        r == (a.0 * 65536 + a.1 >= b.0 * 65536 + b.1),
{
    a.0 > b.0 || (a.0 == b.0 && a.1 >= b.1)
}

fn key_of(node: &MNode) -> (r: (u8, u16))
    ensures
        r.0 <= 1,
        r.0 * 65536 + r.1 == depth_rank(node.kind, node.indent),
{
    depth_key(node.kind, node.indent)
}

/// Reads a line as an item of the outline.
fn parse_item(line: &str) -> (r: Option<(Kind, u16, String)>)
    ensures
        match r {
            Some((kind, indent, text)) => item_of(line@) == Some(
                Item { kind, indent, text: text@ },
            ),
            None => item_of(line@) is None,
        },
{
    match parse_heading(line) {
        Some((level, text)) => Some((Kind::Heading(level), 0, text)),
        None => match parse_list_item(line) {
            Some((indent, bullet, text)) => Some((Kind::ListItem(bullet), indent, text)),
            None => None,
        },
    }
}

/// A code fence that is open: its mark, and how many of them opened it.
type OpenFence = Option<(char, usize)>;

spec fn fence_view(open: OpenFence) -> Option<Fence> {
    match open {
        Some((mark, len)) => Some(Fence { mark, len: len as nat }),
        None => None,
    }
}

/// Whether a character stands in `v` from `from` on.
fn has_char(v: &Vec<char>, from: usize, c: char) -> (r: bool)
    requires
        from <= v@.len(),
    ensures
        r == v@.skip(from as int).contains(c),
{
    let mut i: usize = from;
    while i < v.len()
        invariant
            from <= i <= v@.len(),
            forall|k: int| from <= k < i ==> v@[k] != c,
        decreases v@.len() - i,
    {
        if v[i] == c {
            proof {
                assert(v@.skip(from as int)[i - from] == c);
            }
            return true;
        }
        i += 1;
    }
    false
}

/// The fence that is open after a line, given the one before it.
fn pass_line(open: OpenFence, line: &str) -> (r: OpenFence)
    ensures
        fence_view(r) == next_fence(fence_view(open), line@),
{
    let v: Vec<char> = to_chars(line);
    let n: usize = v.len();
    let lead: usize = count_leading_space(&v, 0, n);
    proof {
        assert(v@.subrange(0, n as int) =~= line@);
        if lead < n {
            assert(v@.skip(lead as int)[0] == v@[lead as int]);
        }
    }
    if lead >= n || (v[lead] != '`' && v[lead] != '~') {
        return open;
    }
    let mark: char = v[lead];
    let len: usize = count_run(&v, lead, mark);
    if len < 3 {
        return open;
    }
    let after: usize = lead + len;
    let ghost f = Fence { mark, len: len as nat };
    proof {
        assert(fence_marks(line@) == Some(f));
        assert(after_marks(line@, f) =~= v@.skip(after as int));
        assert(v@.skip(after as int) =~= v@.subrange(after as int, n as int));
    }
    match open {
        None => if mark == '`' && has_char(&v, after, '`') {
            None
        } else {
            Some((mark, len))
        },
        Some((first, least)) => {
            let (a, b) = find_trimmed(&v, after, n);
            if mark == first && len >= least && a == b {
                None
            } else {
                Some((first, least))
            }
        },
    }
}

/// What the first `count` nodes hold once that many items have been read.
spec fn read_upto(doc: Seq<Seq<char>>, nodes: Seq<MNode>, count: int) -> bool {
    let ranks = item_ranks(doc);
    &&& nodes.len() == count <= ranks.len()
    &&& forall|k: int|
        0 <= k < count ==> {
            let node = #[trigger] nodes[k];
            &&& node.kind == item_at(doc, k).kind
            &&& node.indent == item_at(doc, k).indent
            &&& node.text@ == item_at(doc, k).text
            &&& node.line == item_lines(doc)[k]
            &&& node.parent == id_of_index(parent_index(ranks, k))
            &&& node.children@ == children_upto(ranks, k, count)
            &&& node.depth == depth_index(ranks, k)
        }
}

/// A run of items of which each is the parent of the next.
spec fn is_path(ranks: Seq<int>, stack: Seq<usize>, count: int) -> bool {
    forall|t: int|
        0 <= t < stack.len() ==> {
            &&& (#[trigger] stack[t]) < count
            &&& parent_index(ranks, stack[t] as int) == if t == 0 {
                -1int
            } else {
                stack[t - 1] as int
            }
            &&& depth_index(ranks, stack[t] as int) == t
        }
}

/// The chain of open items: from a root down to the last item read.
spec fn is_chain(ranks: Seq<int>, stack: Seq<usize>, count: int) -> bool {
    &&& is_path(ranks, stack, count)
    &&& count > 0 ==> stack.len() > 0 && stack.last() == count - 1
    &&& count == 0 ==> stack.len() == 0
}

/// Closes the open items that do not enclose the item about to be read,
/// and says under which one it nests.
#[verifier::rlimit(40)]
#[verifier::spinoff_prover]
fn close_deeper(
    lines: &[String],
    nodes: &Vec<MNode>,
    stack: &mut Vec<usize>,
    key: (u8, u16),
) -> (r: Option<NodeId>)
    requires
        read_upto(views(lines@), nodes@, nodes@.len() as int),
        nodes@.len() < item_ranks(views(lines@)).len(),
        is_chain(item_ranks(views(lines@)), old(stack)@, nodes@.len() as int),
        key.0 <= 1,
        key.0 * 65536 + key.1 == item_ranks(views(lines@))[nodes@.len() as int],
    ensures
        is_path(item_ranks(views(lines@)), final(stack)@, nodes@.len() as int),
        parent_index(item_ranks(views(lines@)), nodes@.len() as int) == if final(stack)@.len() == 0 {
            -1int
        } else {
            final(stack)@.last() as int
        },
        depth_index(item_ranks(views(lines@)), nodes@.len() as int) == final(stack)@.len(),
        r == id_of_index(parent_index(item_ranks(views(lines@)), nodes@.len() as int)),
{
    let ghost doc = views(lines@);
    let ghost ranks = item_ranks(doc);
    let ghost count = nodes@.len() as int;
    while stack.len() > 0 && at_least(key_of(&nodes[stack[stack.len() - 1]]), key)
        invariant
            ranks == item_ranks(doc),
            count == nodes@.len() < ranks.len(),
            read_upto(doc, nodes@, count),
            key.0 <= 1,
            key.0 * 65536 + key.1 == ranks[count],
            is_path(ranks, stack@, count),
            parent_index(ranks, count) == nearest_shallower(
                ranks,
                count,
                if stack@.len() == 0 {
                    0
                } else {
                    stack@.last() + 1
                },
            ),
        decreases stack@.len(),
    {
        let ghost top = stack@.last() as int;
        proof {
            assert(ranks[top] == depth_rank(nodes@[top].kind, nodes@[top].indent));
            lemma_step_to_parent(ranks, count, top);
            assert(parent_index(ranks, top) == if stack@.len() == 1 {
                -1int
            } else {
                stack@[stack@.len() - 2] as int
            });
        }
        stack.pop();
    }
    let depth: usize = stack.len();
    let read: usize = nodes.len();
    proof {
        assert(depth > 0 ==> stack@[depth - 1] < read);
        if depth == 0 {
            assert(parent_index(ranks, count) == -1);
        } else {
            let top = stack@.last() as int;
            assert(ranks[top] == depth_rank(nodes@[top].kind, nodes@[top].indent));
            assert(parent_index(ranks, count) == top);
            assert(depth_index(ranks, top) == depth - 1);
        }
        assert(depth_index(ranks, count) == depth);
    }
    if depth == 0 {
        None
    } else {
        Some(stack[depth - 1] as u64 + 1)
    }
}

/// Enters item number `nodes.len()` under its parent.
fn enter_item(
    lines: &[String],
    nodes: &mut Vec<MNode>,
    roots: &mut Vec<NodeId>,
    item: MNode,
)
    requires
        read_upto(views(lines@), old(nodes)@, old(nodes)@.len() as int),
        old(nodes)@.len() < item_ranks(views(lines@)).len(),
        old(roots)@ == children_upto(item_ranks(views(lines@)), -1, old(nodes)@.len() as int),
        item.kind == item_at(views(lines@), old(nodes)@.len() as int).kind,
        item.indent == item_at(views(lines@), old(nodes)@.len() as int).indent,
        item.text@ == item_at(views(lines@), old(nodes)@.len() as int).text,
        item.line == item_lines(views(lines@))[old(nodes)@.len() as int],
        item.parent == id_of_index(
            parent_index(item_ranks(views(lines@)), old(nodes)@.len() as int),
        ),
        item.depth == depth_index(item_ranks(views(lines@)), old(nodes)@.len() as int),
        item.children@.len() == 0,
    ensures
        read_upto(views(lines@), final(nodes)@, final(nodes)@.len() as int),
        final(nodes)@.len() == old(nodes)@.len() + 1,
        final(roots)@ == children_upto(item_ranks(views(lines@)), -1, final(nodes)@.len() as int),
{
    let ghost doc = views(lines@);
    let ghost ranks = item_ranks(doc);
    let ghost count = nodes@.len() as int;
    let ghost before = nodes@;
    let total: usize = lines.len();
    proof {
        lemma_item_lines(doc);
        assert(nodes@.len() < total);
    }
    let id: NodeId = nodes.len() as u64 + 1;
    proof {
        lemma_no_early_children(ranks, count, count + 1);
        lemma_nearest_shallower(ranks, count, count);
    }
    match item.parent {
        None => {
            roots.push(id);
        },
        Some(p) => {
            let at: usize = (p - 1) as usize;
            nodes[at].children.push(id);
        },
    }
    let ghost linked = nodes@;
    proof {
        assert forall|k: int| 0 <= k < count implies {
            let node = #[trigger] linked[k];
            &&& node.kind == before[k].kind
            &&& node.indent == before[k].indent
            &&& node.text == before[k].text
            &&& node.line == before[k].line
            &&& node.parent == before[k].parent
            &&& node.depth == before[k].depth
            &&& node.children@ == children_upto(ranks, k, count + 1)
        } by {
            assert(before[k].children@ == children_upto(ranks, k, count));
        }
    }
    nodes.push(item);
    proof {
        assert(item.children@ =~= children_upto(ranks, count, count + 1));
        assert forall|k: int| 0 <= k < count + 1 implies {
            let node = #[trigger] nodes@[k];
            &&& node.kind == item_at(doc, k).kind
            &&& node.indent == item_at(doc, k).indent
            &&& node.text@ == item_at(doc, k).text
            &&& node.line == item_lines(doc)[k]
            &&& node.parent == id_of_index(parent_index(ranks, k))
            &&& node.children@ == children_upto(ranks, k, count + 1)
            &&& node.depth == depth_index(ranks, k)
        } by {
            if k < count {
                assert(nodes@[k] == linked[k]);
                assert(before[k].text@ == item_at(doc, k).text);
            }
        }
    }
}

/// Reads the items of a document, each with its parent, its depth and the
/// children that follow it.
fn read_items(lines: &[String]) -> (r: (Vec<MNode>, Vec<NodeId>))
    ensures
        read_upto(views(lines@), r.0@, item_ranks(views(lines@)).len() as int),
        r.1@ == outline_roots(views(lines@)),
{
    let ghost doc = views(lines@);
    let ghost ranks = item_ranks(doc);
    let mut nodes: Vec<MNode> = Vec::new();
    let mut roots: Vec<NodeId> = Vec::new();
    let mut stack: Vec<usize> = Vec::new();
    let mut fence: OpenFence = None;
    let total: usize = lines.len();
    let mut i: usize = 0;
    proof {
        assert(doc.take(0) =~= Seq::<Seq<char>>::empty());
        lemma_item_lines(doc);
    }
    while i < total
        invariant
            i <= total == lines@.len(),
            doc == views(lines@),
            ranks == item_ranks(doc),
            nodes@.len() == item_lines(doc.take(i as int)).len(),
            fence_view(fence) == fence_after(doc.take(i as int)),
            read_upto(doc, nodes@, nodes@.len() as int),
            roots@ == children_upto(ranks, -1, nodes@.len() as int),
            is_chain(ranks, stack@, nodes@.len() as int),
        decreases total - i,
    {
        let ghost count = nodes@.len() as int;
        proof {
            assert(doc.take(i + 1).drop_last() =~= doc.take(i as int));
            assert(doc.take(i + 1).last() == lines@[i as int]@);
            lemma_item_lines_prefix(doc, i + 1);
        }
        let item: Option<(Kind, u16, String)> = if fence.is_none() {
            parse_item(lines[i].as_str())
        } else {
            None
        };
        fence = pass_line(fence, lines[i].as_str());
        match item {
            None => {},
            Some((kind, indent, text)) => {
                let key = depth_key(kind, indent);
                proof {
                    let now = item_lines(doc.take(i + 1));
                    assert(now[count] == i);
                    assert(item_lines(doc)[count] == i);
                    assert(item_at(doc, count) == item_of(doc[i as int])->0);
                    assert(ranks[count] == depth_rank(kind, indent));
                }
                let parent: Option<NodeId> = close_deeper(lines, &nodes, &mut stack, key);
                let depth: usize = stack.len();
                let index: usize = nodes.len();
                let ghost open = stack@;
                enter_item(
                    lines,
                    &mut nodes,
                    &mut roots,
                    MNode {
                        kind,
                        indent,
                        text,
                        line: i,
                        end: i + 1,
                        parent,
                        children: Vec::new(),
                        depth,
                    },
                );
                stack.push(index);
                proof {
                    assert forall|t: int| 0 <= t < stack@.len() implies {
                        &&& (#[trigger] stack@[t]) < count + 1
                        &&& parent_index(ranks, stack@[t] as int) == if t == 0 {
                            -1int
                        } else {
                            stack@[t - 1] as int
                        }
                        &&& depth_index(ranks, stack@[t] as int) == t
                    } by {
                        if t < open.len() {
                            assert(stack@[t] == open[t]);
                        }
                    }
                }
            },
        }
        i += 1;
    }
    proof {
        assert(doc.take(doc.len() as int) =~= doc);
    }
    (nodes, roots)
}

/// Where item `k` ends, given all the items of the document.
fn find_end(lines: &[String], nodes: &Vec<MNode>, k: usize) -> (r: usize)
    requires
        read_upto(views(lines@), nodes@, item_ranks(views(lines@)).len() as int),
        k < nodes@.len(),
    ensures
        r == end_line(views(lines@), k as int),
{
    let ghost doc = views(lines@);
    let ghost ranks = item_ranks(doc);
    let ghost at = item_lines(doc);
    proof {
        lemma_item_lines(doc);
        assert forall|j: int| 0 <= j < nodes@.len() implies ranks[j] == depth_rank(
            (#[trigger] nodes@[j]).kind,
            nodes@[j].indent,
        ) by {}
    }
    let key = key_of(&nodes[k]);
    let count: usize = nodes.len();
    let total: usize = lines.len();
    let mut j: usize = k + 1;
    while j < count && !at_least(key, key_of(&nodes[j]))
        invariant
            count == nodes@.len(),
            k < j <= nodes@.len(),
            ranks.len() == nodes@.len(),
            key.0 <= 1,
            key.0 * 65536 + key.1 == ranks[k as int],
            forall|x: int| 0 <= x < nodes@.len() ==> ranks[x] == depth_rank(
                (#[trigger] nodes@[x]).kind,
                nodes@[x].indent,
            ),
            next_at_most(ranks, k as int, k + 1) == next_at_most(ranks, k as int, j as int),
        decreases nodes@.len() - j,
    {
        j += 1;
    }
    let mut end: usize = if j < count {
        nodes[j].line
    } else {
        total
    };
    let start: usize = nodes[k].line;
    let ghost raw = end as int;
    proof {
        if j < nodes@.len() {
            assert(next_at_most(ranks, k as int, k + 1) == j);
            assert(nodes@[j as int].line == at[j as int]);
        }
        assert(at[k as int] == start);
        assert(raw <= doc.len());
    }
    while end > start + 1 && is_blank_line(lines[end - 1].as_str())
        invariant
            end <= total == lines@.len(),
            doc == views(lines@),
            start < total,
            before_blanks(doc, start as int, raw) == before_blanks(doc, start as int, end as int),
        decreases end,
    {
        end -= 1;
    }
    end
}

/// Whether a line holds nothing but white space.
fn is_blank_line(line: &str) -> (r: bool)
    ensures
        r == is_blank(line@),
{
    let v: Vec<char> = to_chars(line);
    let (a, b) = find_trimmed(&v, 0, v.len());
    proof {
        assert(v@.subrange(0, v@.len() as int) =~= line@);
    }
    a == b
}

/// Reads a document as a tree.
pub fn parse(lines: &[String]) -> (r: MindTree)
    ensures
        r@ == outline(views(lines@)),
        r@.wf(),
{
    let count: usize = lines.len();
    let ghost doc = views(lines@);
    proof {
        assert(doc.len() == count);
        lemma_outline_wf(doc);
    }
    let ghost ranks = item_ranks(doc);
    let (read, roots) = read_items(lines);
    let mut ends: Vec<usize> = Vec::new();
    let mut k: usize = 0;
    while k < read.len()
        invariant
            k <= read@.len(),
            doc == views(lines@),
            read_upto(doc, read@, item_ranks(doc).len() as int),
            ends@.len() == k,
            forall|j: int| 0 <= j < k ==> #[trigger] ends@[j] == end_line(doc, j),
        decreases read@.len() - k,
    {
        let end: usize = find_end(lines, &read, k);
        ends.push(end);
        k += 1;
    }
    let mut rest: Vec<MNode> = read;
    let mut nodes: HashMap<NodeId, MNode> = HashMap::new();
    let ghost whole = rest@;
    let ghost n = whole.len();
    proof {
        lemma_item_lines(doc);
    }
    while rest.len() > 0
        invariant
            rest@ == whole.take(rest@.len() as int),
            rest@.len() <= n == whole.len() == ends@.len(),
            n == item_ranks(doc).len() == item_lines(doc).len(),
            n <= usize::MAX,
            read_upto(doc, whole, item_ranks(doc).len() as int),
            forall|j: int| 0 <= j < n ==> #[trigger] ends@[j] == end_line(doc, j),
            forall|id: u64|
                #[trigger] nodes@.contains_key(id) <==> rest@.len() < id <= n,
            forall|id: u64|
                rest@.len() < id <= n ==> (#[trigger] nodes@[id])@ == outline_node(doc, id - 1),
        decreases rest@.len(),
    {
        let ghost m = rest@.len();
        match rest.pop() {
            None => {},
            Some(mut node) => {
                let index: usize = rest.len();
                proof {
                    assert(node == whole[index as int]);
                    assert(rest@ =~= whole.take(rest@.len() as int));
                }
                node.end = ends[index];
                proof {
                    assert(node@ =~= outline_node(doc, index as int));
                }
                nodes.insert(index as u64 + 1, node);
            },
        }
    }
    let tree = MindTree { nodes, roots };
    proof {
        assert(tree@.nodes =~= outline_nodes(doc));
    }
    tree
}

/// Where a node is to land: a parent (`None` for the document root) and a
/// position among that parent's children, counted with the moved node
/// already left out.
#[derive(Debug, Clone, Copy, PartialEq, Eq)]
pub struct Target {
    pub parent: Option<NodeId>,
    pub index: usize,
}

impl Tree {
    /// Ids run from 1 without a gap; links go both ways and from lower ids
    /// to higher; depths count the enclosing nodes.
    pub open spec fn wf(self) -> bool {
        &&& self.nodes.dom().finite()
        &&& forall|id: u64|
            #[trigger] self.nodes.contains_key(id) <==> 1 <= id <= self.nodes.len()
        &&& forall|id: u64|
            #[trigger] self.nodes.contains_key(id) ==> {
                let node = self.nodes[id];
                &&& 0 <= node.line < node.end
                &&& node.depth >= 0
                &&& match node.kind {
                    Kind::Heading(level) => 1 <= level <= 6 && node.indent == 0,
                    Kind::ListItem(bullet) => is_bullet(bullet),
                }
                &&& match node.parent {
                    None => node.depth == 0 && self.roots.contains(id),
                    Some(p) => {
                        &&& self.nodes.contains_key(p)
                        &&& p < id
                        &&& node.depth == self.nodes[p].depth + 1
                        &&& self.nodes[p].children.contains(id)
                    },
                }
            }
        &&& forall|id: u64, c: u64|
            self.nodes.contains_key(id) && #[trigger] self.nodes[id].children.contains(c) ==> {
                &&& self.nodes.contains_key(c)
                &&& id < c
                &&& self.nodes[c].parent == Some(id)
            }
        &&& forall|c: u64|
            #[trigger] self.roots.contains(c) ==> self.nodes.contains_key(c)
                && self.nodes[c].parent is None
    }

    /// The ids under `ids`, each before its children, in order. Leaves out
    /// the whole subtree of `skip`.
    pub open spec fn walk(self, above: int, ids: Seq<u64>, skip: Option<u64>) -> Seq<u64>
        decreases u64::MAX - above, ids.len(),
    {
        if ids.len() == 0 {
            Seq::empty()
        } else {
            let before = self.walk(above, ids.drop_last(), skip);
            let id = ids.last();
            if skip == Some(id) || id <= above {
                before
            } else {
                before + seq![id] + self.walk(id as int, self.nodes[id].children, skip)
            }
        }
    }

    /// Every id, each before its children, without the subtree of `skip`.
    pub open spec fn flat(self, skip: Option<u64>) -> Seq<u64> {
        self.walk(0, self.roots, skip)
    }

    /// The children of a node, or the roots.
    pub open spec fn children(self, parent: Option<u64>) -> Seq<u64> {
        match parent {
            Some(p) => self.nodes[p].children,
            None => self.roots,
        }
    }

    /// The node itself or the enclosing one that is no deeper than `depth`.
    pub open spec fn ancestor_at_depth(self, of: u64, depth: int) -> u64
        decreases of,
    {
        match self.nodes[of].parent {
            Some(p) if self.nodes[of].depth > depth && p < of => self.ancestor_at_depth(p, depth),
            _ => of,
        }
    }

    /// Where a node stands among its parent's children.
    pub open spec fn index_in_parent(self, id: u64) -> int {
        first_index(self.children(self.nodes[id].parent), id)
    }

    /// The position right behind a node among its parent's children, counted
    /// by those that stand in a flat list.
    pub open spec fn index_behind(self, id: u64, flat: Seq<u64>) -> int {
        let upto = self.children(self.nodes[id].parent).take(self.index_in_parent(id) + 1);
        upto.filter(standing_in(flat)).len() as int
    }

    /// The tree position that a gap between two rows of a flat list means,
    /// counted with what is not in the list left out.
    /// The gap right where a node's first child begins makes the dropped
    /// node that first child; any other gap takes the depth of the row
    /// below it.
    pub open spec fn resolve(self, flat: Seq<u64>, slot: int) -> (Option<u64>, int) {
        if slot == 0 || slot > flat.len() {
            (None, 0)
        } else {
            let above = flat[slot - 1];
            let below_depth = if slot < flat.len() {
                self.nodes[flat[slot]].depth
            } else {
                self.nodes[above].depth
            };
            if below_depth > self.nodes[above].depth {
                (Some(above), 0)
            } else {
                let anchor = self.ancestor_at_depth(above, below_depth);
                (self.nodes[anchor].parent, self.index_behind(anchor, flat))
            }
        }
    }
}

/// The test for ids that stand in a list.
pub open spec fn standing_in(flat: Seq<u64>) -> spec_fn(u64) -> bool {
    |id: u64| flat.contains(id)
}

/// The first index at which `x` stands in `s`; 0 where it does not.
pub open spec fn first_index(s: Seq<u64>, x: u64) -> int
    decreases s.len(),
{
    if s.len() == 0 || s[0] == x || !s.contains(x) {
        0
    } else {
        1 + first_index(s.skip(1), x)
    }
}

/// The first position of `x` in `s`, 0 where there is none.
fn find_first(s: &Vec<NodeId>, x: NodeId) -> (r: usize)
    ensures
        r == first_index(s@, x),
        s@.contains(x) ==> r < s@.len(),
{
    let mut i: usize = 0;
    proof {
        assert(s@.skip(0) =~= s@);
    }
    while i < s.len()
        invariant
            i <= s@.len(),
            forall|k: int| 0 <= k < i ==> s@[k] != x,
            s@.contains(x) ==> first_index(s@, x) == i + first_index(s@.skip(i as int), x),
        decreases s@.len() - i,
    {
        let ghost rest = s@.skip(i as int);
        if s[i] == x {
            proof {
                assert(rest[0] == x);
                assert(s@[i as int] == x);
            }
            return i;
        }
        proof {
            assert(rest.skip(1) =~= s@.skip(i + 1));
            if s@.contains(x) {
                let k = choose|k: int| 0 <= k < s@.len() && s@[k] == x;
                assert(rest[k - i] == x);
            }
        }
        i += 1;
    }
    0
}

impl MindTree {
    pub fn node(&self, id: NodeId) -> (r: Option<&MNode>)
        ensures
            match r {
                Some(node) => self@.nodes.contains_key(id) && node@ == self@.nodes[id],
                None => !self@.nodes.contains_key(id),
            },
    {
        self.nodes.get(&id)
    }

    fn at(&self, id: NodeId) -> (r: &MNode)
        requires
            self@.nodes.contains_key(id),
        ensures
            r@ == self@.nodes[id],
    {
        self.nodes.get(&id).unwrap()
    }

    fn walk_into(
        &self,
        above: NodeId,
        ids: &Vec<NodeId>,
        exclude: Option<NodeId>,
        out: &mut Vec<NodeId>,
    )
        requires
            self@.wf(),
            forall|k: int|
                0 <= k < ids@.len() ==> above < #[trigger] ids@[k] && self@.nodes.contains_key(
                    ids@[k],
                ),
        ensures
            final(out)@ == old(out)@ + self@.walk(above as int, ids@, exclude),
        decreases u64::MAX - above,
    {
        let mut i: usize = 0;
        proof {
            assert(ids@.take(0) =~= Seq::<u64>::empty());
            assert(out@ =~= old(out)@ + Seq::<u64>::empty());
        }
        while i < ids.len()
            invariant
                self@.wf(),
                i <= ids@.len(),
                forall|k: int|
                    0 <= k < ids@.len() ==> above < #[trigger] ids@[k] && self@.nodes.contains_key(
                        ids@[k],
                    ),
                out@ == old(out)@ + self@.walk(above as int, ids@.take(i as int), exclude),
            decreases ids@.len() - i,
        {
            let id: NodeId = ids[i];
            let ghost before = self@.walk(above as int, ids@.take(i as int), exclude);
            i += 1;
            proof {
                assert(ids@.take(i as int).drop_last() =~= ids@.take(i - 1));
            }
            let skipped: bool = match exclude {
                Some(x) => x == id,
                None => false,
            };
            if !skipped {
                out.push(id);
                let node: &MNode = self.at(id);
                proof {
                    assert forall|k: int| 0 <= k < node.children@.len() implies id
                        < #[trigger] node.children@[k] && self@.nodes.contains_key(
                        node.children@[k],
                    ) by {
                        assert(self@.nodes[id].children.contains(node.children@[k]));
                    }
                }
                self.walk_into(id, &node.children, exclude, out);
                proof {
                    let under = self@.walk(id as int, node.children@, exclude);
                    assert(out@ =~= old(out)@ + (before + seq![id] + under));
                }
            }
        }
        proof {
            assert(ids@.take(ids@.len() as int) =~= ids@);
        }
    }

    /// Pre-order, skipping `exclude`'s whole subtree: what a drag leaves in
    /// the flow while it is held.
    pub fn flat(&self, exclude: Option<NodeId>) -> (r: Vec<NodeId>)
        requires
            self@.wf(),
        ensures
            r@ == self@.flat(exclude),
    {
        let mut out: Vec<NodeId> = Vec::new();
        proof {
            assert forall|k: int| 0 <= k < self.roots@.len() implies 0 < #[trigger] self.roots@[k]
                && self@.nodes.contains_key(self.roots@[k]) by {
                assert(self@.roots.contains(self.roots@[k]));
            }
        }
        self.walk_into(0, &self.roots, exclude, &mut out);
        proof {
            assert(out@ =~= self@.flat(exclude));
        }
        out
    }

    fn siblings_of(&self, id: NodeId) -> (r: &Vec<NodeId>)
        requires
            self@.wf(),
            self@.nodes.contains_key(id),
        ensures
            r@ == self@.children(self@.nodes[id].parent),
    {
        match self.at(id).parent {
            Some(p) => &self.at(p).children,
            None => &self.roots,
        }
    }

    fn index_in_parent(&self, id: NodeId) -> (r: usize)
        requires
            self@.wf(),
            self@.nodes.contains_key(id),
        ensures
            r == self@.index_in_parent(id),
            r < self@.children(self@.nodes[id].parent).len() <= usize::MAX,
    {
        let all: &Vec<NodeId> = self.siblings_of(id);
        let count: usize = all.len();
        find_first(all, id)
    }

    fn ancestor_at_depth(&self, of: NodeId, depth: usize) -> (r: NodeId)
        requires
            self@.wf(),
            self@.nodes.contains_key(of),
        ensures
            r == self@.ancestor_at_depth(of, depth as int),
            self@.nodes.contains_key(r),
    {
        let mut cur: NodeId = of;
        while self.at(cur).depth > depth
            invariant
                self@.wf(),
                self@.nodes.contains_key(cur),
                self@.ancestor_at_depth(of, depth as int) == self@.ancestor_at_depth(
                    cur,
                    depth as int,
                ),
            decreases cur,
        {
            match self.at(cur).parent {
                Some(p) => {
                    cur = p;
                },
                None => {},
            }
        }
        cur
    }

    /// `slot` is an insertion index into the list that `flat` came from;
    /// this turns it back into a tree position. Dropping right where a
    /// node's first child would begin makes it that node's new first child;
    /// dropping anywhere else snaps to the depth of the neighbor it rejoins.
    pub fn resolve_target(&self, flat: &[NodeId], slot: usize) -> (r: Target)
        requires
            self@.wf(),
            forall|k: int| 0 <= k < flat@.len() ==> self@.nodes.contains_key(#[trigger] flat@[k]),
        ensures
            (r.parent, r.index as int) == self@.resolve(flat@, slot as int),
    {
        if slot == 0 || slot > flat.len() {
            return Target { parent: None, index: 0 };
        }
        let above: NodeId = flat[slot - 1];
        let above_depth: usize = self.at(above).depth;
        let below_depth: usize = if slot < flat.len() {
            self.at(flat[slot]).depth
        } else {
            above_depth
        };
        if below_depth > above_depth {
            return Target { parent: Some(above), index: 0 };
        }
        let anchor: NodeId = self.ancestor_at_depth(above, below_depth);
        Target { parent: self.at(anchor).parent, index: self.find_behind(anchor, flat) }
    }

    /// The position right behind a node, counted by what stands in `flat`.
    fn find_behind(&self, id: NodeId, flat: &[NodeId]) -> (r: usize)
        requires
            self@.wf(),
            self@.nodes.contains_key(id),
        ensures
            r == self@.index_behind(id, flat@),
    {
        let all: &Vec<NodeId> = self.siblings_of(id);
        let last: usize = self.index_in_parent(id);
        let n: usize = all.len();
        let ghost test = standing_in(flat@);
        let mut count: usize = 0;
        let mut i: usize = 0;
        proof {
            reveal(Seq::filter);
            assert(all@.take(0) =~= Seq::<u64>::empty());
        }
        while i <= last
            invariant
                i <= last + 1,
                last < n == all@.len(),
                test == standing_in(flat@),
                count == all@.take(i as int).filter(test).len(),
                count <= i,
            decreases last + 1 - i,
        {
            proof {
                assert(all@.take(i + 1) =~= all@.take(i as int).push(all@[i as int]));
                all@.take(i as int).lemma_filter_push(all@[i as int], test);
            }
            if stands_in(flat, all[i]) {
                count += 1;
            }
            i += 1;
        }
        count
    }
}

fn stands_in(flat: &[NodeId], id: NodeId) -> (r: bool)
    ensures
        r == flat@.contains(id),
{
    let mut i: usize = 0;
    while i < flat.len()
        invariant
            i <= flat@.len(),
            forall|k: int| 0 <= k < i ==> flat@[k] != id,
        decreases flat@.len() - i,
    {
        if flat[i] == id {
            return true;
        }
        i += 1;
    }
    false
}

/// A move worked out in source lines: the lines `start..end` go to where
/// line `insert_at` begins, `delta` levels or columns deeper.
#[derive(Debug, Clone, Copy, PartialEq, Eq)]
pub struct Move {
    pub start: usize,
    pub end: usize,
    pub insert_at: usize,
    pub kind: Kind,
    /// Heading: `#`-count delta. List item: leading-space delta.
    pub delta: i32,
}

impl Move {
    /// Depth changes are differences of levels or of indents.
    pub open spec fn wf(self) -> bool {
        &&& self.start <= self.end
        &&& -0x20000 <= self.delta <= 0x20000
    }

    /// Whether the move can be made in a document of `n` lines: the place
    /// it goes to is still there once its own lines are cut out.
    pub open spec fn fits(self, n: int) -> bool {
        &&& self.end <= n
        &&& self.insert_at > self.start ==> self.end - self.start <= self.insert_at <= n
    }

    /// Whether the move can be made in a document of `n` lines.
    pub fn can_apply(&self, n: usize) -> (r: bool)
        requires
            self.wf(),
        ensures
            r == self.fits(n as int),
    {
        self.end <= n && (self.insert_at <= self.start || (self.end - self.start <= self.insert_at
            && self.insert_at <= n))
    }
}

impl Tree {
    /// Whether a node can be given the parent: a heading never becomes a
    /// list item's child.
    pub open spec fn valid(self, moved: u64, parent: Option<u64>) -> bool {
        !(self.nodes[moved].kind is Heading && parent is Some
            && self.nodes[parent->0].kind is ListItem)
    }

    /// How much further in a nested list item sits than the item it nests
    /// under; 0 where there is no such pair.
    pub open spec fn indent_gap(self, id: u64) -> int {
        match self.nodes[id].parent {
            Some(p) => if self.nodes[id].kind is ListItem && self.nodes[p].kind is ListItem
                && self.nodes[id].indent > self.nodes[p].indent {
                self.nodes[id].indent - self.nodes[p].indent
            } else {
                0
            },
            None => 0,
        }
    }

    /// The first indent gap in the document from `id` on, 2 if there is none.
    pub open spec fn indent_step_from(self, id: int) -> int
        decreases self.nodes.len() + 1 - id,
    {
        if id > self.nodes.len() {
            2
        } else if self.indent_gap(id as u64) > 0 {
            self.indent_gap(id as u64)
        } else {
            self.indent_step_from(id + 1)
        }
    }

    /// How far in this document indents a nested list item.
    pub open spec fn indent_step(self) -> int {
        self.indent_step_from(1)
    }

    /// How much deeper a node gets under a parent: not at all under its own,
    /// else a heading one level below a heading, a list item one step in
    /// from a list item.
    pub open spec fn depth_delta(self, moved: u64, parent: Option<u64>) -> int {
        if parent == self.nodes[moved].parent {
            0
        } else {
            self.new_depth_delta(moved, parent)
        }
    }

    /// How much deeper a node gets under another parent.
    pub open spec fn new_depth_delta(self, moved: u64, parent: Option<u64>) -> int {
        match self.nodes[moved].kind {
            Kind::Heading(old_level) => {
                let level = match parent {
                    None => 1,
                    Some(p) => match self.nodes[p].kind {
                        Kind::Heading(l) => if l < 6 {
                            l + 1
                        } else {
                            6
                        },
                        Kind::ListItem(_) => 1,
                    },
                };
                level - old_level
            },
            Kind::ListItem(_) => {
                let indent = match parent {
                    None => 0,
                    Some(p) => match self.nodes[p].kind {
                        Kind::Heading(_) => 0,
                        Kind::ListItem(_) => self.nodes[p].indent + self.indent_step(),
                    },
                };
                indent - self.nodes[moved].indent
            },
        }
    }

    /// The children of a parent with one node left out.
    pub open spec fn other_children(self, parent: Option<u64>, moved: u64) -> Seq<u64> {
        self.children(parent).filter(other_than(moved))
    }

    /// How many of `ids` lead it as list items.
    pub open spec fn list_prefix(self, ids: Seq<u64>) -> int
        decreases ids.len(),
    {
        if ids.len() == 0 || !(self.nodes[ids[0]].kind is ListItem) {
            0
        } else {
            1 + self.list_prefix(ids.skip(1))
        }
    }

    /// Among a parent's children the list items come first and the headings
    /// after them; an index is moved to the side of that boundary on which
    /// the node belongs.
    pub open spec fn clamped_index(self, moved: u64, parent: Option<u64>, index: int) -> int {
        let boundary = self.list_prefix(self.other_children(parent, moved));
        match self.nodes[moved].kind {
            Kind::Heading(_) => if index < boundary {
                boundary
            } else {
                index
            },
            Kind::ListItem(_) => if index < boundary {
                index
            } else {
                boundary
            },
        }
    }

    /// The line before which a node goes to become a child of `parent`.
    pub open spec fn insert_line(self, moved: u64, parent: Option<u64>, index: int) -> int {
        let siblings = self.other_children(parent, moved);
        let at = self.clamped_index(moved, parent, index);
        if at < siblings.len() {
            self.nodes[siblings[at]].line
        } else if parent is Some {
            self.nodes[parent->0].end
        } else if siblings.len() > 0 {
            self.nodes[siblings.last()].end
        } else {
            0
        }
    }
}

/// The test that leaves one id out.
pub open spec fn other_than(id: u64) -> spec_fn(u64) -> bool {
    |s: u64| s != id
}

/// The children `ids` with one left out.
fn without(ids: &Vec<NodeId>, moved: NodeId) -> (r: Vec<NodeId>)
    ensures
        r@ == ids@.filter(other_than(moved)),
{
    let ghost keep = other_than(moved);
    let mut out: Vec<NodeId> = Vec::new();
    let mut i: usize = 0;
    proof {
        reveal(Seq::filter);
        assert(ids@.take(0) =~= Seq::<u64>::empty());
    }
    while i < ids.len()
        invariant
            i <= ids@.len(),
            keep == other_than(moved),
            out@ == ids@.take(i as int).filter(keep),
        decreases ids@.len() - i,
    {
        let id: NodeId = ids[i];
        proof {
            assert(ids@.take(i + 1) =~= ids@.take(i as int).push(id));
            ids@.take(i as int).lemma_filter_push(id, keep);
        }
        if id != moved {
            out.push(id);
        }
        i += 1;
    }
    proof {
        assert(ids@.take(ids@.len() as int) =~= ids@);
    }
    out
}

impl MindTree {
    /// A heading can never become a list item's child: that is not
    /// representable as nested markdown.
    fn valid(&self, moved: NodeId, target: &Target) -> (r: bool)
        requires
            self@.nodes.contains_key(moved),
            target.parent is Some ==> self@.nodes.contains_key(target.parent->0),
        ensures
            r == self@.valid(moved, target.parent),
    {
        match (self.at(moved).kind, target.parent) {
            (Kind::Heading(_), Some(pid)) => match self.at(pid).kind {
                Kind::ListItem(_) => false,
                Kind::Heading(_) => true,
            },
            _ => true,
        }
    }

    fn detect_indent_step(&self) -> (r: u16)
        requires
            self@.wf(),
        ensures
            r == self@.indent_step(),
    {
        proof {
            assert(self@.nodes.dom() =~= self.nodes@.dom());
        }
        let count: usize = self.nodes.len();
        let mut done: usize = 0;
        while done < count
            invariant
                self@.wf(),
                done <= count == self@.nodes.len(),
                self@.indent_step() == self@.indent_step_from(done + 1),
            decreases count - done,
        {
            let id: NodeId = done as u64 + 1;
            let node: &MNode = self.at(id);
            if let Some(p) = node.parent {
                proof {
                    assert(self@.nodes.contains_key(id));
                    assert(self@.nodes[id].parent == Some(p));
                }
                let above: &MNode = self.at(p);
                if let (Kind::ListItem(_), Kind::ListItem(_)) = (node.kind, above.kind) {
                    if node.indent > above.indent {
                        return node.indent - above.indent;
                    }
                }
            }
            done += 1;
        }
        2
    }

    fn count_list_prefix(&self, ids: &Vec<NodeId>) -> (r: usize)
        requires
            forall|k: int| 0 <= k < ids@.len() ==> self@.nodes.contains_key(#[trigger] ids@[k]),
        ensures
            r == self@.list_prefix(ids@),
    {
        let mut i: usize = 0;
        proof {
            assert(ids@.skip(0) =~= ids@);
        }
        while i < ids.len()
            invariant
                i <= ids@.len(),
                forall|k: int| 0 <= k < ids@.len() ==> self@.nodes.contains_key(#[trigger] ids@[k]),
                self@.list_prefix(ids@) == i + self@.list_prefix(ids@.skip(i as int)),
            decreases ids@.len() - i,
        {
            proof {
                assert(ids@.skip(i as int).skip(1) =~= ids@.skip(i + 1));
                assert(ids@.skip(i as int)[0] == ids@[i as int]);
            }
            match self.at(ids[i]).kind {
                Kind::ListItem(_) => {},
                Kind::Heading(_) => {
                    return i;
                },
            }
            i += 1;
        }
        i
    }

    /// Works out a move in source lines, or `None` for one that markdown
    /// cannot represent.
    pub fn plan_move(&self, moved: NodeId, target: &Target) -> (r: Option<Move>)
        requires
            self@.wf(),
            self@.nodes.contains_key(moved),
            target.parent is Some ==> self@.nodes.contains_key(target.parent->0),
        ensures
            match r {
                None => !self@.valid(moved, target.parent),
                Some(mv) => {
                    &&& self@.valid(moved, target.parent)
                    &&& mv.wf()
                    &&& mv.start == self@.nodes[moved].line
                    &&& mv.end == self@.nodes[moved].end
                    &&& mv.kind == self@.nodes[moved].kind
                    &&& mv.delta == self@.depth_delta(moved, target.parent)
                    &&& mv.insert_at == self@.insert_line(
                        moved,
                        target.parent,
                        target.index as int,
                    )
                },
            },
    {
        if !self.valid(moved, target) {
            return None;
        }
        let node: &MNode = self.at(moved);
        let stays: bool = match (target.parent, node.parent) {
            (Some(p), Some(q)) => p == q,
            (None, None) => true,
            _ => false,
        };
        let delta: i32 = match node.kind {
            _ if stays => 0,
            Kind::Heading(old_level) => {
                let new_level: u8 = match target.parent {
                    None => 1,
                    Some(pid) => match self.at(pid).kind {
                        Kind::Heading(l) => if l < 6 {
                            l + 1
                        } else {
                            6
                        },
                        Kind::ListItem(_) => 1,
                    },
                };
                new_level as i32 - old_level as i32
            },
            Kind::ListItem(_) => {
                let new_indent: i32 = match target.parent {
                    None => 0,
                    Some(pid) => {
                        let parent: &MNode = self.at(pid);
                        match parent.kind {
                            Kind::Heading(_) => 0,
                            Kind::ListItem(_) => parent.indent as i32
                                + self.detect_indent_step() as i32,
                        }
                    },
                };
                new_indent - node.indent as i32
            },
        };
        let all: &Vec<NodeId> = match target.parent {
            None => &self.roots,
            Some(pid) => &self.at(pid).children,
        };
        let siblings: Vec<NodeId> = without(all, moved);
        proof {
            assert(all@ == self@.children(target.parent));
            let keep = other_than(moved);
            assert forall|k: int| 0 <= k < siblings@.len() implies self@.nodes.contains_key(
                #[trigger] siblings@[k],
            ) by {
                all@.lemma_filter_contains_rev(keep, siblings@[k]);
                assert(all@.contains(siblings@[k]));
            }
        }
        // Markdown has no closing tag: a heading's scope ends only where the
        // next same-or-shallower heading begins, so among one parent's
        // children the list items are a leading run and the sub-headings a
        // trailing one. A moved node stays on its own side of the boundary.
        let boundary: usize = self.count_list_prefix(&siblings);
        let index: usize = match node.kind {
            Kind::Heading(_) => if target.index < boundary {
                boundary
            } else {
                target.index
            },
            Kind::ListItem(_) => if target.index < boundary {
                target.index
            } else {
                boundary
            },
        };
        let insert_at: usize = if index < siblings.len() {
            self.at(siblings[index]).line
        } else {
            match target.parent {
                Some(pid) => self.at(pid).end,
                None => if siblings.len() > 0 {
                    self.at(siblings[siblings.len() - 1]).end
                } else {
                    0
                },
            }
        };
        Some(Move { start: node.line, end: node.end, insert_at, kind: node.kind, delta })
    }
}

/// Writes a heading as a line.
fn write_heading(level: usize, text: &str) -> (r: String)
    ensures
        r@ == heading_line(level as nat, text@),
{
    let mut out = String::new();
    push_repeated(&mut out, '#', level);
    proof {
        assert(out@ =~= crate::text::repeated('#', level as nat));
    }
    out.push(' ');
    out.append(text);
    out
}

/// Writes a list item as a line.
fn write_list_item(indent: usize, bullet: char, text: &str) -> (r: String)
    ensures
        r@ == list_item_line(indent as nat, bullet, text@),
{
    let mut out = String::new();
    push_repeated(&mut out, ' ', indent);
    proof {
        assert(out@ =~= crate::text::repeated(' ', indent as nat));
    }
    out.push(bullet);
    out.push(' ');
    out.append(text);
    out
}

/// Rewrites one line of a moved block.
fn shift_line(line: &String, kind: Kind, delta: i32) -> (r: String)
    requires
        -0x20000 <= delta <= 0x20000,
    ensures
        r@ == shifted_line(line@, kind, delta as int),
{
    match kind {
        Kind::Heading(_) => match parse_heading(line.as_str()) {
            Some((level, text)) => {
                let wanted: i32 = level as i32 + delta;
                let new_level: usize = if wanted < 1 {
                    1
                } else if wanted > 6 {
                    6
                } else {
                    wanted as usize
                };
                write_heading(new_level, text.as_str())
            },
            None => line.clone(),
        },
        Kind::ListItem(_) => match parse_list_item(line.as_str()) {
            Some((indent, bullet, text)) => {
                let wanted: i32 = indent as i32 + delta;
                let new_indent: usize = if wanted < 0 {
                    0
                } else {
                    wanted as usize
                };
                write_list_item(new_indent, bullet, text.as_str())
            },
            None => line.clone(),
        },
    }
}

/// Appends copies of the lines `from..to`.
fn copy_lines(out: &mut Vec<String>, lines: &[String], from: usize, to: usize)
    requires
        from <= to <= lines@.len(),
    ensures
        views(final(out)@) == views(old(out)@) + views(lines@).subrange(from as int, to as int),
{
    let mut i: usize = from;
    proof {
        assert(views(out@) =~= views(old(out)@) + views(lines@).subrange(from as int, from as int));
    }
    while i < to
        invariant
            from <= i <= to <= lines@.len(),
            views(out@) == views(old(out)@) + views(lines@).subrange(from as int, i as int),
        decreases to - i,
    {
        let ghost before = views(out@);
        let line: String = lines[i].clone();
        out.push(line);
        i += 1;
        proof {
            assert(views(out@) =~= before.push(lines@[i - 1]@));
            assert(views(old(out)@) + views(lines@).subrange(from as int, i as int) =~= (views(
                old(out)@,
            ) + views(lines@).subrange(from as int, i - 1)).push(lines@[i - 1]@));
        }
    }
}

/// Appends the moved block.
fn copy_block(out: &mut Vec<String>, lines: &[String], mv: &Move)
    requires
        mv.wf(),
        mv.end <= lines@.len(),
    ensures
        views(final(out)@) == views(old(out)@) + shifted_block(
            views(lines@).subrange(mv.start as int, mv.end as int),
            mv.kind,
            mv.delta as int,
        ),
{
    if mv.delta == 0 {
        copy_lines(out, lines, mv.start, mv.end);
        return;
    }
    let ghost block = views(lines@).subrange(mv.start as int, mv.end as int);
    let ghost shifted = shifted_block(block, mv.kind, mv.delta as int);
    let mut fence: OpenFence = None;
    let mut i: usize = mv.start;
    proof {
        assert(views(out@) =~= views(old(out)@) + shifted.take(0));
        assert(block.take(0) =~= Seq::<Seq<char>>::empty());
    }
    while i < mv.end
        invariant
            mv.wf(),
            mv.delta != 0,
            mv.start <= i <= mv.end <= lines@.len(),
            block == views(lines@).subrange(mv.start as int, mv.end as int),
            shifted == shifted_block(block, mv.kind, mv.delta as int),
            views(out@) == views(old(out)@) + shifted.take(i - mv.start),
            fence_view(fence) == fence_after(block.take(i - mv.start)),
        decreases mv.end - i,
    {
        let ghost before = views(out@);
        let line: String = if fence.is_none() {
            shift_line(&lines[i], mv.kind, mv.delta)
        } else {
            lines[i].clone()
        };
        fence = pass_line(fence, lines[i].as_str());
        proof {
            assert(block.take(i + 1 - mv.start).drop_last() =~= block.take(i - mv.start));
            assert(block.take(i + 1 - mv.start).last() == lines@[i as int]@);
        }
        out.push(line);
        i += 1;
        proof {
            assert(views(out@) =~= before.push(line@));
            assert(line@ == shifted[i - 1 - mv.start]);
            assert(views(old(out)@) + shifted.take(i - mv.start) =~= (views(old(out)@)
                + shifted.take(i - 1 - mv.start)).push(line@));
        }
    }
    proof {
        assert(shifted.take(mv.end - mv.start) =~= shifted);
    }
}

/// Makes a planned move: the block's lines are cut out, rewritten where
/// their depth changes, and put back in.
pub fn apply_move(lines: &[String], mv: &Move) -> (r: Vec<String>)
    requires
        mv.wf(),
        mv.fits(lines@.len() as int),
    ensures
        views(r@) == moved_doc(
            views(lines@),
            mv.start as int,
            mv.end as int,
            mv.insert_at as int,
            mv.kind,
            mv.delta as int,
        ),
{
    let ghost doc = views(lines@);
    let ghost rest = cut(doc, mv.start as int, mv.end as int);
    let ghost at = landing(mv.start as int, mv.end as int, mv.insert_at as int);
    let ghost block = shifted_block(
        doc.subrange(mv.start as int, mv.end as int),
        mv.kind,
        mv.delta as int,
    );
    let n: usize = lines.len();
    let len: usize = mv.end - mv.start;
    let to: usize = if mv.insert_at > mv.start {
        mv.insert_at - len
    } else {
        mv.insert_at
    };
    let mut out: Vec<String> = Vec::new();
    if to <= mv.start {
        copy_lines(&mut out, lines, 0, to);
        copy_block(&mut out, lines, mv);
        copy_lines(&mut out, lines, to, mv.start);
        copy_lines(&mut out, lines, mv.end, n);
        proof {
            assert(rest.take(at) =~= doc.subrange(0, to as int));
            assert(rest.skip(at) =~= doc.subrange(to as int, mv.start as int) + doc.subrange(
                mv.end as int,
                n as int,
            ));
            assert(views(out@) =~= rest.take(at) + block + rest.skip(at));
        }
    } else {
        let back: usize = to + len;
        copy_lines(&mut out, lines, 0, mv.start);
        copy_lines(&mut out, lines, mv.end, back);
        copy_block(&mut out, lines, mv);
        copy_lines(&mut out, lines, back, n);
        proof {
            assert(rest.take(at) =~= doc.subrange(0, mv.start as int) + doc.subrange(
                mv.end as int,
                back as int,
            ));
            assert(rest.skip(at) =~= doc.subrange(back as int, n as int));
            assert(views(out@) =~= rest.take(at) + block + rest.skip(at));
        }
    }
    out
}

/// Replaces a node's own text; an id that is not in the tree changes
/// nothing.
pub fn set_text(lines: &mut [String], tree: &MindTree, id: NodeId, new_text: &str)
    requires
        tree@.nodes.contains_key(id) ==> 0 <= tree@.nodes[id].line < old(lines)@.len(),
    ensures
        views(final(lines)@) == if tree@.nodes.contains_key(id) {
            views(old(lines)@).update(
                tree@.nodes[id].line,
                node_line(tree@.nodes[id].kind, tree@.nodes[id].indent, new_text@),
            )
        } else {
            views(old(lines)@)
        },
{
    let ghost before = views(lines@);
    match tree.node(id) {
        None => {},
        Some(node) => {
            let line: String = match node.kind {
                Kind::Heading(level) => write_heading(level as usize, new_text),
                Kind::ListItem(bullet) => write_list_item(node.indent as usize, bullet, new_text),
            };
            let at: usize = node.line;
            let ghost shown = line@;
            lines[at] = line;
            proof {
                assert(views(lines@) =~= before.update(at as int, shown));
            }
        },
    }
}

} // verus!

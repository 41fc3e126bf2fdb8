//! What a markdown document is as an outline: which lines are headings or
//! list items, which item nests under which, and how far each one reaches.

use vstd::prelude::*;

use crate::mindmap::Kind;
use crate::text::{leading_space, repeated, trim, trim_start, utf8_bytes};

verus! {

/// One line of a document read as an item of the outline.
pub ghost struct Item {
    pub kind: Kind,
    pub indent: u16,
    pub text: Seq<char>,
}

/// One node of the outline.
pub ghost struct OutlineNode {
    pub kind: Kind,
    pub indent: u16,
    pub text: Seq<char>,
    pub line: int,
    pub end: int,
    pub parent: Option<u64>,
    pub children: Seq<u64>,
    pub depth: int,
}

/// How many leading characters of `s` are `c`.
pub open spec fn leading_run(s: Seq<char>, c: char) -> nat
    decreases s.len(),
{
    if s.len() == 0 || s[0] != c {
        0
    } else {
        1 + leading_run(s.skip(1), c)
    }
}

/// An ATX heading: after any white space, one to six `#`, then nothing or
/// a space. Gives the level and the text.
pub open spec fn heading_of(line: Seq<char>) -> Option<(u8, Seq<char>)> {
    let s = trim_start(line);
    let level = leading_run(s, '#');
    let rest = s.skip(level as int);
    if level == 0 || level > 6 || (rest.len() > 0 && rest[0] != ' ') {
        None
    } else {
        Some((level as u8, trim(rest)))
    }
}

/// Whether `c` can open a list item.
pub open spec fn is_bullet(c: char) -> bool {
    c == '-' || c == '*' || c == '+'
}

/// How many bytes of white space lead a line, as a 16-bit count.
pub open spec fn indent_of(line: Seq<char>) -> u16 {
    (utf8_bytes(line.take(leading_space(line) as int)) % 65536) as u16
}

/// A list item: after its indent, a bullet and a space. Gives the indent,
/// the bullet and the text.
pub open spec fn list_item_of(line: Seq<char>) -> Option<(u16, char, Seq<char>)> {
    let s = trim_start(line);
    let rest = s.skip(1);
    if s.len() == 0 || !is_bullet(s[0]) || rest.len() == 0 || rest[0] != ' ' {
        None
    } else {
        Some((indent_of(line), s[0], trim_start(rest)))
    }
}

/// What item a line is, if it is one.
pub open spec fn item_of(line: Seq<char>) -> Option<Item> {
    match heading_of(line) {
        Some((level, text)) => Some(Item { kind: Kind::Heading(level), indent: 0, text }),
        None => match list_item_of(line) {
            Some((indent, bullet, text)) => Some(
                Item { kind: Kind::ListItem(bullet), indent, text },
            ),
            None => None,
        },
    }
}

/// An open code fence: its mark, and how many of them opened it.
pub ghost struct Fence {
    pub mark: char,
    pub len: nat,
}

/// The marks that a line starts with after any white space, if they can be
/// a fence: at least three backquotes or tildes.
pub open spec fn fence_marks(line: Seq<char>) -> Option<Fence> {
    let s = trim_start(line);
    if s.len() == 0 || (s[0] != '`' && s[0] != '~') || leading_run(s, s[0]) < 3 {
        None
    } else {
        Some(Fence { mark: s[0], len: leading_run(s, s[0]) })
    }
}

/// What follows the marks of a fence on its line.
pub open spec fn after_marks(line: Seq<char>, f: Fence) -> Seq<char> {
    trim_start(line).skip(f.len as int)
}

/// The fence that a line opens, if it does: behind backquotes there is no
/// other backquote, or it would be code within a line.
pub open spec fn opened_fence(line: Seq<char>) -> Option<Fence> {
    match fence_marks(line) {
        Some(f) => if f.mark == '`' && after_marks(line, f).contains('`') {
            None
        } else {
            Some(f)
        },
        None => None,
    }
}

/// Whether a line closes a fence: with at least as many of the same marks,
/// and nothing else.
pub open spec fn closes_fence(line: Seq<char>, open: Fence) -> bool {
    match fence_marks(line) {
        Some(f) => f.mark == open.mark && f.len >= open.len && is_blank(after_marks(line, f)),
        None => false,
    }
}

/// The fence that is open after a line, given the one before it.
pub open spec fn next_fence(open: Option<Fence>, line: Seq<char>) -> Option<Fence> {
    match open {
        Some(f) => if closes_fence(line, f) {
            None
        } else {
            Some(f)
        },
        None => opened_fence(line),
    }
}

/// The fence that is open behind some lines.
pub open spec fn fence_after(doc: Seq<Seq<char>>) -> Option<Fence>
    decreases doc.len(),
{
    if doc.len() == 0 {
        None
    } else {
        next_fence(fence_after(doc.drop_last()), doc.last())
    }
}

/// Headings sort by level; any list item is deeper than any heading; list
/// items among themselves sort by indent.
pub open spec fn depth_rank(kind: Kind, indent: u16) -> int {
    match kind {
        Kind::Heading(level) => level as int,
        Kind::ListItem(_) => 65536 + indent as int,
    }
}

/// The line numbers of a document's items, in order. What stands in a code
/// fence is no item.
pub open spec fn item_lines(doc: Seq<Seq<char>>) -> Seq<int>
    decreases doc.len(),
{
    if doc.len() == 0 {
        Seq::empty()
    } else {
        let before = item_lines(doc.drop_last());
        if item_of(doc.last()) is Some && fence_after(doc.drop_last()) is None {
            before.push(doc.len() - 1)
        } else {
            before
        }
    }
}

/// The `k`th item of a document.
pub open spec fn item_at(doc: Seq<Seq<char>>, k: int) -> Item {
    item_of(doc[item_lines(doc)[k]])->0
}

/// How deep each item of a document sorts.
pub open spec fn item_ranks(doc: Seq<Seq<char>>) -> Seq<int> {
    Seq::new(
        item_lines(doc).len(),
        |k: int| depth_rank(item_at(doc, k).kind, item_at(doc, k).indent),
    )
}

/// The last index below `j` whose rank is below that of `i`, or -1.
pub open spec fn nearest_shallower(ranks: Seq<int>, i: int, j: int) -> int
    decreases j,
{
    if j <= 0 {
        -1
    } else if ranks[j - 1] < ranks[i] {
        j - 1
    } else {
        nearest_shallower(ranks, i, j - 1)
    }
}

/// The item that item `i` nests under: the last earlier one that is
/// shallower, or -1 for none.
pub open spec fn parent_index(ranks: Seq<int>, i: int) -> int {
    nearest_shallower(ranks, i, i)
}

/// How many items enclose item `i`.
pub open spec fn depth_index(ranks: Seq<int>, i: int) -> int
    decreases i,
{
    let p = parent_index(ranks, i);
    if 0 <= p < i {
        1 + depth_index(ranks, p)
    } else {
        0
    }
}

/// The ids of those of the first `n` items whose parent is `p`, in order.
/// Item `k` has the id `k + 1`; the parent -1 gives the roots.
pub open spec fn children_upto(ranks: Seq<int>, p: int, n: int) -> Seq<u64>
    decreases n,
{
    if n <= 0 {
        Seq::empty()
    } else {
        let before = children_upto(ranks, p, n - 1);
        if parent_index(ranks, n - 1) == p {
            before.push(n as u64)
        } else {
            before
        }
    }
}

/// The first index from `j` on whose rank is at most that of `i`, or the
/// number of items.
pub open spec fn next_at_most(ranks: Seq<int>, i: int, j: int) -> int
    decreases ranks.len() - j,
{
    if j >= ranks.len() {
        ranks.len() as int
    } else if ranks[j] <= ranks[i] {
        j
    } else {
        next_at_most(ranks, i, j + 1)
    }
}

/// Whether a line holds nothing but white space.
pub open spec fn is_blank(line: Seq<char>) -> bool {
    trim(line).len() == 0
}

/// `end` moved back over the blank lines before it, but not onto `start`.
pub open spec fn before_blanks(doc: Seq<Seq<char>>, start: int, end: int) -> int
    decreases end,
{
    if end > start + 1 && end > 0 && is_blank(doc[end - 1]) {
        before_blanks(doc, start, end - 1)
    } else {
        end
    }
}

/// The line before which item `k` ends: where the next item at the same
/// depth or shallower begins, less the blank lines in between.
pub open spec fn end_line(doc: Seq<Seq<char>>, k: int) -> int {
    let at = item_lines(doc);
    let next = next_at_most(item_ranks(doc), k, k + 1);
    let raw = if next < at.len() {
        at[next]
    } else {
        doc.len() as int
    };
    before_blanks(doc, at[k], raw)
}

/// The id of the item at an index, none for -1.
pub open spec fn id_of_index(i: int) -> Option<u64> {
    if i < 0 {
        None
    } else {
        Some((i + 1) as u64)
    }
}

/// The node that item `k` becomes.
pub open spec fn outline_node(doc: Seq<Seq<char>>, k: int) -> OutlineNode {
    let ranks = item_ranks(doc);
    let item = item_at(doc, k);
    OutlineNode {
        kind: item.kind,
        indent: item.indent,
        text: item.text,
        line: item_lines(doc)[k],
        end: end_line(doc, k),
        parent: id_of_index(parent_index(ranks, k)),
        children: children_upto(ranks, k, ranks.len() as int),
        depth: depth_index(ranks, k),
    }
}

/// The ids of a document's outermost nodes.
pub open spec fn outline_roots(doc: Seq<Seq<char>>) -> Seq<u64> {
    children_upto(item_ranks(doc), -1, item_ranks(doc).len() as int)
}

/// The outline of a document, by id.
pub open spec fn outline_nodes(doc: Seq<Seq<char>>) -> Map<u64, OutlineNode> {
    Map::new(
        |id: u64| 1 <= id <= item_lines(doc).len(),
        |id: u64| outline_node(doc, id - 1),
    )
}

/// A heading as a line.
pub open spec fn heading_line(level: nat, text: Seq<char>) -> Seq<char> {
    repeated('#', level).push(' ') + text
}

/// A list item as a line.
pub open spec fn list_item_line(indent: nat, bullet: char, text: Seq<char>) -> Seq<char> {
    repeated(' ', indent).push(bullet).push(' ') + text
}

/// `n` moved into `lo..=hi`.
pub open spec fn clamp(n: int, lo: int, hi: int) -> int {
    if n < lo {
        lo
    } else if n > hi {
        hi
    } else {
        n
    }
}

/// A line of a moved block made `delta` deeper, if it is of the kind that
/// was moved; any other line stays as it is.
pub open spec fn shifted_line(line: Seq<char>, kind: Kind, delta: int) -> Seq<char> {
    match kind {
        Kind::Heading(_) => match heading_of(line) {
            Some((level, text)) => heading_line(clamp(level + delta, 1, 6) as nat, text),
            None => line,
        },
        Kind::ListItem(_) => match list_item_of(line) {
            Some((indent, bullet, text)) => list_item_line(
                if indent + delta < 0 {
                    0
                } else {
                    (indent + delta) as nat
                },
                bullet,
                text,
            ),
            None => line,
        },
    }
}

/// A moved block: line for line the block itself where the depth stays.
/// What stands in a code fence stays as it is in any case.
pub open spec fn shifted_block(block: Seq<Seq<char>>, kind: Kind, delta: int) -> Seq<Seq<char>> {
    if delta == 0 {
        block
    } else {
        Seq::new(
            block.len(),
            |i: int|
                if fence_after(block.take(i)) is None {
                    shifted_line(block[i], kind, delta)
                } else {
                    block[i]
                },
        )
    }
}

/// A document with the lines `start..end` cut out.
pub open spec fn cut(doc: Seq<Seq<char>>, start: int, end: int) -> Seq<Seq<char>> {
    doc.take(start) + doc.skip(end)
}

/// Where line `insert_at` stands once the lines `start..end` are cut out.
pub open spec fn landing(start: int, end: int, insert_at: int) -> int {
    if insert_at > start {
        insert_at - (end - start)
    } else {
        insert_at
    }
}

/// A document with the lines `start..end` moved to where line `insert_at`
/// begins.
pub open spec fn moved_doc(
    doc: Seq<Seq<char>>,
    start: int,
    end: int,
    insert_at: int,
    kind: Kind,
    delta: int,
) -> Seq<Seq<char>> {
    let rest = cut(doc, start, end);
    let at = landing(start, end, insert_at);
    rest.take(at) + shifted_block(doc.subrange(start, end), kind, delta) + rest.skip(at)
}

/// The line of a node that holds the text.
pub open spec fn node_line(kind: Kind, indent: u16, text: Seq<char>) -> Seq<char> {
    match kind {
        Kind::Heading(level) => heading_line(level as nat, text),
        Kind::ListItem(bullet) => list_item_line(indent as nat, bullet, text),
    }
}

pub proof fn lemma_item_lines_prefix(doc: Seq<Seq<char>>, i: int)
    requires
        0 <= i <= doc.len(),
    ensures
        item_lines(doc.take(i)).len() <= item_lines(doc).len(),
        forall|k: int|
            0 <= k < item_lines(doc.take(i)).len() ==> #[trigger] item_lines(doc)[k] == item_lines(
                doc.take(i),
            )[k],
    decreases doc.len(),
{
    if i == doc.len() {
        assert(doc.take(i) =~= doc);
    } else {
        lemma_item_lines_prefix(doc.drop_last(), i);
        assert(doc.drop_last().take(i) =~= doc.take(i));
    }
}

pub proof fn lemma_item_lines(doc: Seq<Seq<char>>)
    ensures
        item_lines(doc).len() <= doc.len(),
        forall|k: int|
            0 <= k < item_lines(doc).len() ==> 0 <= #[trigger] item_lines(doc)[k] < doc.len()
                && item_of(doc[item_lines(doc)[k]]) is Some,
        forall|j: int, k: int|
            0 <= j < k < item_lines(doc).len() ==> #[trigger] item_lines(doc)[j]
                < #[trigger] item_lines(doc)[k],
    decreases doc.len(),
{
    if doc.len() > 0 {
        lemma_item_lines(doc.drop_last());
    }
}

pub proof fn lemma_nearest_shallower(ranks: Seq<int>, i: int, j: int)
    requires
        0 <= j <= ranks.len(),
    ensures
        -1 <= nearest_shallower(ranks, i, j) < j,
        nearest_shallower(ranks, i, j) >= 0 ==> ranks[nearest_shallower(ranks, i, j)] < ranks[i],
        forall|k: int|
            nearest_shallower(ranks, i, j) < k < j ==> #[trigger] ranks[k] >= ranks[i],
    decreases j,
{
    if j > 0 && ranks[j - 1] >= ranks[i] {
        lemma_nearest_shallower(ranks, i, j - 1);
    }
}

/// Stepping from an item that is too deep to its parent misses nothing.
pub proof fn lemma_step_to_parent(ranks: Seq<int>, i: int, j: int)
    requires
        0 <= j < i < ranks.len(),
        ranks[j] >= ranks[i],
    ensures
        nearest_shallower(ranks, i, j + 1) == nearest_shallower(
            ranks,
            i,
            parent_index(ranks, j) + 1,
        ),
{
    lemma_nearest_shallower(ranks, j, j);
    let p = parent_index(ranks, j);
    lemma_skip_deeper(ranks, i, p + 1, j + 1);
}

pub(crate) proof fn lemma_skip_deeper(ranks: Seq<int>, i: int, from: int, to: int)
    requires
        0 <= from <= to <= ranks.len(),
        forall|k: int| from <= k < to ==> #[trigger] ranks[k] >= ranks[i],
    ensures
        nearest_shallower(ranks, i, to) == nearest_shallower(ranks, i, from),
    decreases to - from,
{
    if from < to {
        lemma_skip_deeper(ranks, i, from, to - 1);
    }
}

pub proof fn lemma_no_early_children(ranks: Seq<int>, p: int, n: int)
    requires
        0 <= n <= ranks.len(),
        n <= p + 1,
        p >= 0,
    ensures
        children_upto(ranks, p, n) == Seq::<u64>::empty(),
    decreases n,
{
    if n > 0 {
        lemma_nearest_shallower(ranks, n - 1, n - 1);
        lemma_no_early_children(ranks, p, n - 1);
    }
}

pub proof fn lemma_children(ranks: Seq<int>, p: int, n: int)
    requires
        0 <= n <= ranks.len() <= u64::MAX,
        p >= -1,
    ensures
        forall|c: u64|
            #[trigger] children_upto(ranks, p, n).contains(c) <==> (1 <= c <= n && parent_index(
                ranks,
                c - 1,
            ) == p),
        forall|a: int, b: int|
            0 <= a < b < children_upto(ranks, p, n).len() ==> #[trigger] children_upto(
                ranks,
                p,
                n,
            )[a] < #[trigger] children_upto(ranks, p, n)[b],
    decreases n,
{
    if n > 0 {
        lemma_children(ranks, p, n - 1);
        let before = children_upto(ranks, p, n - 1);
        let now = children_upto(ranks, p, n);
        assert forall|c: u64| #[trigger] now.contains(c) implies (1 <= c <= n && parent_index(
            ranks,
            c - 1,
        ) == p) by {
            if parent_index(ranks, n - 1) == p {
                let i = choose|i: int| 0 <= i < now.len() && now[i] == c;
                if i < before.len() {
                    assert(before.contains(before[i]));
                }
            } else {
                assert(before.contains(c));
            }
        }
        assert forall|c: u64| 1 <= c <= n && parent_index(ranks, c - 1) == p implies #[trigger]
            now.contains(c) by {
            if c == n {
                assert(now[now.len() - 1] == c);
            } else {
                assert(before.contains(c));
                let i = choose|i: int| 0 <= i < before.len() && before[i] == c;
                assert(now[i] == c);
            }
        }
        assert forall|a: int, b: int| 0 <= a < b < now.len() implies #[trigger] now[a]
            < #[trigger] now[b] by {
            if b < before.len() {
                assert(before[a] < before[b]);
            } else {
                assert(before.contains(before[a]));
            }
        }
    } else {
        assert(children_upto(ranks, p, n) =~= Seq::<u64>::empty());
    }
}

} // verus!

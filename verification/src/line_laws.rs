//! Which lines of a document are headings, items and code fences, and what
//! the bytes and the endings of lines are.

use vstd::prelude::*;
use vstd::utf8::{encode_scalar, encode_utf8};

use crate::endings::{moved_endings, EndingsView};
use crate::outline::{
    before_blanks, closes_fence, end_line, fence_after, heading_of, is_blank, item_lines,
    item_ranks, leading_run, lemma_item_lines, list_item_of, next_at_most, opened_fence, Fence,
};
use crate::outline_laws::{lemma_leading_run_is, lemma_leading_space_is, lemma_next_at_most};
use crate::text::{is_space, repeated, trim_start, utf8_bytes};

verus! {

/// Whether a line is some white space, then just so many of a mark, then the
/// rest.
pub open spec fn is_marked(
    line: Seq<char>,
    space: Seq<char>,
    c: char,
    n: nat,
    rest: Seq<char>,
) -> bool {
    &&& line == space + repeated(c, n) + rest
    &&& forall|k: int| 0 <= k < space.len() ==> is_space(#[trigger] space[k])
    &&& n > 0 && !is_space(c)
    &&& rest.len() > 0 ==> rest[0] != c
}

proof fn lemma_marked(line: Seq<char>, space: Seq<char>, c: char, n: nat, rest: Seq<char>)
    requires
        is_marked(line, space, c, n, rest),
    ensures
        trim_start(line) == repeated(c, n) + rest,
        leading_run(trim_start(line), c) == n,
        trim_start(line).skip(n as int) == rest,
        trim_start(line)[0] == c,
{
    let s = repeated(c, n) + rest;
    assert forall|k: int| 0 <= k < space.len() implies is_space(#[trigger] line[k]) by {
        assert(line[k] == space[k]);
    }
    assert(line[space.len() as int] == c);
    lemma_leading_space_is(line, space.len());
    assert(trim_start(line) =~= s);
    assert forall|k: int| 0 <= k < n implies #[trigger] s[k] == c by {}
    if rest.len() > 0 {
        assert(s[n as int] == rest[0]);
    }
    lemma_leading_run_is(s, c, n);
    assert(s.skip(n as int) =~= rest);
}

/// A line of `#` is a heading just where there are six at most and nothing
/// or a space follows them; its level is how many there are.
pub proof fn lemma_heading_has_its_level(
    line: Seq<char>,
    space: Seq<char>,
    n: nat,
    rest: Seq<char>,
)
    requires
        is_marked(line, space, '#', n, rest),
    ensures
        heading_of(line) is Some <==> n <= 6 && (rest.len() == 0 || rest[0] == ' '),
        heading_of(line) is Some ==> (heading_of(line)->0).0 == n,
{
    lemma_marked(line, space, '#', n, rest);
}

/// A line is a list item just where its first character is one of the three
/// bullets and a space follows it.
pub proof fn lemma_item_has_its_bullet(
    line: Seq<char>,
    space: Seq<char>,
    c: char,
    rest: Seq<char>,
)
    requires
        is_marked(line, space, c, 1, rest),
    ensures
        list_item_of(line) is Some <==> (c == '-' || c == '*' || c == '+') && rest.len() > 0
            && rest[0] == ' ',
        list_item_of(line) matches Some((_, b, text)) ==> b == c && text == trim_start(rest),
{
    lemma_marked(line, space, c, 1, rest);
}

/// A code fence is opened by three backquotes or tildes or more, but not by
/// backquotes with another one later in the line.
pub proof fn lemma_fence_is_opened_by_its_marks(
    line: Seq<char>,
    space: Seq<char>,
    c: char,
    n: nat,
    rest: Seq<char>,
)
    requires
        is_marked(line, space, c, n, rest),
    ensures
        opened_fence(line) is Some <==> n >= 3 && (c == '~' || (c == '`' && !rest.contains('`'))),
        opened_fence(line) matches Some(f) ==> f.mark == c && f.len == n,
{
    lemma_marked(line, space, c, n, rest);
}

/// A code fence is closed by its own mark, as many as opened it or more, and
/// nothing behind them.
pub proof fn lemma_fence_is_closed_by_its_marks(
    line: Seq<char>,
    space: Seq<char>,
    c: char,
    n: nat,
    rest: Seq<char>,
    open: Fence,
)
    requires
        is_marked(line, space, c, n, rest),
        open.len >= 3,
        open.mark == '`' || open.mark == '~',
    ensures
        closes_fence(line, open) <==> c == open.mark && n >= open.len && is_blank(rest),
{
    lemma_marked(line, space, c, n, rest);
}

/// What stands between a line that opens a fence and the first that closes it
/// is in that fence; behind that line there is none.
pub proof fn lemma_fence_holds_its_lines(
    before: Seq<Seq<char>>,
    open: Seq<char>,
    body: Seq<Seq<char>>,
    close: Seq<char>,
    f: Fence,
)
    requires
        fence_after(before) is None,
        opened_fence(open) == Some(f),
        forall|k: int| 0 <= k < body.len() ==> !closes_fence(#[trigger] body[k], f),
        closes_fence(close, f),
    ensures
        fence_after(before.push(open) + body) == Some(f),
        fence_after((before.push(open) + body).push(close)) is None,
        item_lines(before.push(open) + body) == item_lines(before.push(open)),
    decreases body.len(),
{
    let held = before.push(open) + body;
    assert(before.push(open).drop_last() =~= before);
    assert(held.push(close).drop_last() =~= held);
    if body.len() == 0 {
        assert(held =~= before.push(open));
    } else {
        lemma_fence_holds_its_lines(before, open, body.drop_last(), close, f);
        assert(held.drop_last() =~= before.push(open) + body.drop_last());
        assert(held.last() == body.last());
    }
}

/// The bytes of a text are those of its UTF-8.
pub proof fn lemma_bytes_are_utf8(s: Seq<char>)
    ensures
        utf8_bytes(s) == encode_utf8(s).len(),
    decreases s.len(),
{
    if s.len() > 0 {
        lemma_bytes_from_the_front(s);
        lemma_bytes_are_utf8(s.drop_first());
        lemma_width(s[0]);
    }
}

proof fn lemma_width(c: char)
    ensures
        encode_scalar(c as u32).len() == utf8_bytes(seq![c]),
{
    let s = seq![c];
    assert(s.drop_last() =~= Seq::empty());
    assert(utf8_bytes(s.drop_last()) == 0);
}

proof fn lemma_bytes_from_the_front(s: Seq<char>)
    requires
        s.len() > 0,
    ensures
        utf8_bytes(s) == utf8_bytes(seq![s[0]]) + utf8_bytes(s.drop_first()),
    decreases s.len(),
{
    if s.len() == 1 {
        assert(s =~= seq![s[0]]);
        assert(s.drop_first() =~= Seq::empty());
    } else {
        lemma_bytes_from_the_front(s.drop_last());
        assert(s.drop_last().drop_first() =~= s.drop_first().drop_last());
    }
}

/// Lines that are moved keep their endings: the moved ones stand together in
/// their order, right before the line that they were moved to, and the others
/// keep theirs.
pub proof fn lemma_moved_lines_keep_their_endings(
    e: EndingsView,
    start: int,
    end: int,
    at: int,
    i: int,
)
    requires
        0 <= start <= end <= e.crlf.len(),
        0 <= at <= start || end <= at <= e.crlf.len(),
        0 <= i < e.crlf.len(),
    ensures
        ({
            let m = moved_endings(e, start, end, at);
            let n = end - start;
            &&& m.closed == e.closed
            &&& m.crlf.len() == e.crlf.len()
            &&& e.crlf[i] == m.crlf[if start <= i < end {
                if at <= start {
                    i - start + at
                } else {
                    i - start + at - n
                }
            } else if at <= i < start {
                i + n
            } else if end <= i < at {
                i - n
            } else {
                i
            }]
        }),
{
}

/// A node's lines end with the last that is not blank before the next node
/// that is no deeper: what follows, up to that node, is blank.
pub proof fn lemma_node_ends_before_the_blanks(doc: Seq<Seq<char>>, k: int, i: int)
    requires
        0 <= k < item_lines(doc).len(),
    ensures
        ({
            let at = item_lines(doc);
            let next = next_at_most(item_ranks(doc), k, k + 1);
            let upto = if next < at.len() {
                at[next]
            } else {
                doc.len() as int
            };
            &&& at[k] < end_line(doc, k) <= upto
            &&& end_line(doc, k) > at[k] + 1 ==> !is_blank(doc[end_line(doc, k) - 1])
            &&& end_line(doc, k) <= i < upto ==> is_blank(doc[i])
        }),
{
    let at = item_lines(doc);
    lemma_item_lines(doc);
    lemma_next_at_most(item_ranks(doc), k, k + 1);
    let next = next_at_most(item_ranks(doc), k, k + 1);
    let upto = if next < at.len() {
        at[next]
    } else {
        doc.len() as int
    };
    assert(at[k] < upto);
    lemma_blanks_behind(doc, at[k], upto, i);
}

proof fn lemma_blanks_behind(doc: Seq<Seq<char>>, start: int, end: int, i: int)
    requires
        0 <= start < end,
    ensures
        start < before_blanks(doc, start, end) <= end,
        before_blanks(doc, start, end) > start + 1 ==> !is_blank(
            doc[before_blanks(doc, start, end) - 1],
        ),
        before_blanks(doc, start, end) <= i < end ==> is_blank(doc[i]),
    decreases end,
{
    if end > start + 1 && is_blank(doc[end - 1]) {
        lemma_blanks_behind(doc, start, end - 1, i);
    }
}

} // verus!

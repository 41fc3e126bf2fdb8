//! The board as plain text: how much of it there is to draw, and the drawn
//! rows without the space around them.

use vstd::prelude::*;

use crate::geometry::{clamp_i32, clamp_u16, max, min, to_i32, to_u16};
use crate::mindmap::count_run;
use crate::model::{Canvas, NodeView};
use crate::outline::leading_run;
use crate::text::{find_trimmed_end, join, joined, string_of, to_chars, trim_end, views};

verus! {

/// How far connectors may run past the outermost boxes.
pub const MARGIN: i64 = 4;

/// The first column of some boxes.
pub open spec fn left_edge(nodes: Seq<NodeView>) -> int
    decreases nodes.len(),
{
    if nodes.len() == 0 {
        0
    } else if nodes.len() == 1 {
        nodes[0].rect.x as int
    } else {
        min(left_edge(nodes.drop_last()), nodes.last().rect.x as int)
    }
}

/// The first row of some boxes.
pub open spec fn top_edge(nodes: Seq<NodeView>) -> int
    decreases nodes.len(),
{
    if nodes.len() == 0 {
        0
    } else if nodes.len() == 1 {
        nodes[0].rect.y as int
    } else {
        min(top_edge(nodes.drop_last()), nodes.last().rect.y as int)
    }
}

/// The column past some boxes.
pub open spec fn right_edge(nodes: Seq<NodeView>) -> int
    decreases nodes.len(),
{
    if nodes.len() == 0 {
        0
    } else if nodes.len() == 1 {
        nodes[0].rect.x + nodes[0].rect.width
    } else {
        max(right_edge(nodes.drop_last()), nodes.last().rect.x + nodes.last().rect.width)
    }
}

/// The row past some boxes.
pub open spec fn bottom_edge(nodes: Seq<NodeView>) -> int
    decreases nodes.len(),
{
    if nodes.len() == 0 {
        0
    } else if nodes.len() == 1 {
        nodes[0].rect.y + nodes[0].rect.height
    } else {
        max(bottom_edge(nodes.drop_last()), nodes.last().rect.y + nodes.last().rect.height)
    }
}

/// From where a board is to be looked at to see all of it, and how wide and
/// high that is.
pub fn extent(canvas: &Canvas) -> (r: ((i32, i32), u16, u16))
    ensures
        ({
            let nodes = canvas@.nodes;
            let (x, y) = (left_edge(nodes) - MARGIN, top_edge(nodes) - MARGIN);
            &&& r.0 == (to_i32(x), to_i32(y))
            &&& r.1 == to_u16(right_edge(nodes) + MARGIN - x)
            &&& r.2 == to_u16(bottom_edge(nodes) + MARGIN - y)
        }),
{
    let ghost nodes = canvas@.nodes;
    let (mut x0, mut y0, mut x1, mut y1): (i64, i64, i64, i64) = (0, 0, 0, 0);
    let mut i: usize = 0;
    proof {
        assert(nodes.take(0) =~= Seq::<NodeView>::empty());
    }
    while i < canvas.nodes.len()
        invariant
            i <= canvas.nodes@.len(),
            nodes == canvas@.nodes,
            x0 == left_edge(nodes.take(i as int)),
            y0 == top_edge(nodes.take(i as int)),
            x1 == right_edge(nodes.take(i as int)),
            y1 == bottom_edge(nodes.take(i as int)),
            i32::MIN <= x0 <= i32::MAX,
            i32::MIN <= y0 <= i32::MAX,
            i32::MIN <= x1 <= i32::MAX + u16::MAX,
            i32::MIN <= y1 <= i32::MAX + u16::MAX,
        decreases canvas.nodes@.len() - i,
    {
        let r = canvas.nodes[i].rect;
        let (x, y): (i64, i64) = (r.x as i64, r.y as i64);
        let (right, bottom): (i64, i64) = (x + r.width as i64, y + r.height as i64);
        proof {
            assert(nodes[i as int] == canvas.nodes@[i as int]@);
            assert(nodes.take(i + 1).drop_last() =~= nodes.take(i as int));
        }
        if i == 0 || x < x0 {
            x0 = x;
        }
        if i == 0 || y < y0 {
            y0 = y;
        }
        if i == 0 || right > x1 {
            x1 = right;
        }
        if i == 0 || bottom > y1 {
            y1 = bottom;
        }
        i += 1;
    }
    proof {
        assert(nodes.take(nodes.len() as int) =~= nodes);
    }
    let (left, top): (i64, i64) = (x0 - MARGIN, y0 - MARGIN);
    (
        (clamp_i32(left), clamp_i32(top)),
        clamp_u16(x1 + MARGIN - left),
        clamp_u16(y1 + MARGIN - top),
    )
}

/// Each row without the space at its end.
pub open spec fn trimmed_rows(rows: Seq<Seq<char>>) -> Seq<Seq<char>> {
    Seq::new(rows.len(), |i: int| trim_end(rows[i]))
}

/// Rows without the empty ones that lead them.
pub open spec fn without_lead(rows: Seq<Seq<char>>) -> Seq<Seq<char>>
    decreases rows.len(),
{
    if rows.len() == 0 || rows[0].len() > 0 {
        rows
    } else {
        without_lead(rows.skip(1))
    }
}

/// Rows without the empty ones at their end.
pub open spec fn without_tail(rows: Seq<Seq<char>>) -> Seq<Seq<char>>
    decreases rows.len(),
{
    if rows.len() == 0 || rows.last().len() > 0 {
        rows
    } else {
        without_tail(rows.drop_last())
    }
}

/// How many spaces all rows that are not empty start with, the first of
/// which is not.
pub open spec fn shared_indent(rows: Seq<Seq<char>>) -> nat
    decreases rows.len(),
{
    if rows.len() == 0 {
        0
    } else if rows.len() == 1 {
        leading_run(rows[0], ' ')
    } else {
        let before = shared_indent(rows.drop_last());
        if rows.last().len() == 0 {
            before
        } else {
            min(before as int, leading_run(rows.last(), ' ') as int) as nat
        }
    }
}

/// Rows with their first `n` characters left out.
pub open spec fn outdented(rows: Seq<Seq<char>>, n: int) -> Seq<Seq<char>> {
    Seq::new(
        rows.len(),
        |i: int|
            if rows[i].len() <= n {
                Seq::empty()
            } else {
                rows[i].skip(n)
            },
    )
}

/// What is left of drawn rows: nothing of the space around what was drawn.
pub open spec fn drawn_rows(rows: Seq<Seq<char>>) -> Seq<Seq<char>> {
    without_tail(without_lead(trimmed_rows(rows)))
}

proof fn lemma_lead(rows: Seq<Seq<char>>, n: int)
    requires
        0 <= n <= rows.len(),
        forall|i: int| 0 <= i < n ==> (#[trigger] rows[i]).len() == 0,
        n < rows.len() ==> rows[n].len() > 0,
    ensures
        without_lead(rows) == rows.skip(n),
    decreases n,
{
    if n > 0 {
        assert(rows[0].len() == 0);
        assert forall|i: int| 0 <= i < n - 1 implies (#[trigger] rows.skip(1)[i]).len() == 0 by {
            assert(rows.skip(1)[i] == rows[i + 1]);
        }
        lemma_lead(rows.skip(1), n - 1);
        assert(rows.skip(1).skip(n - 1) =~= rows.skip(n));
    } else {
        assert(rows.skip(0) =~= rows);
    }
}

proof fn lemma_tail(rows: Seq<Seq<char>>, n: int)
    requires
        0 <= n <= rows.len(),
        forall|i: int| n <= i < rows.len() ==> (#[trigger] rows[i]).len() == 0,
        n > 0 ==> rows[n - 1].len() > 0,
    ensures
        without_tail(rows) == rows.take(n),
    decreases rows.len() - n,
{
    if n < rows.len() {
        assert(rows[rows.len() - 1].len() == 0);
        lemma_tail(rows.drop_last(), n);
        assert(rows.drop_last().take(n) =~= rows.take(n));
    } else {
        assert(rows.take(n) =~= rows);
    }
}

/// The rows of a drawing as one text, without the space around it: no space
/// at the end of a row, no empty rows before or after it, and as much of the
/// indent left out as all rows share.
pub fn tidy(rows: &Vec<String>) -> (r: String)
    ensures
        ({
            let shown = drawn_rows(views(rows@));
            r@ == joined(outdented(shown, shared_indent(shown) as int), '\n')
        }),
{
    let ghost all = trimmed_rows(views(rows@));
    let mut kept: Vec<Vec<char>> = Vec::new();
    let mut i: usize = 0;
    while i < rows.len()
        invariant
            i <= rows@.len(),
            all == trimmed_rows(views(rows@)),
            kept@.len() == i,
            forall|k: int| 0 <= k < i ==> (#[trigger] kept@[k])@ == all[k],
        decreases rows@.len() - i,
    {
        let v: Vec<char> = to_chars(rows[i].as_str());
        let n: usize = find_trimmed_end(&v, 0, v.len());
        let mut row: Vec<char> = v;
        proof {
            assert(row@.subrange(0, row@.len() as int) =~= rows@[i as int]@);
        }
        row.truncate(n);
        proof {
            assert(row@ =~= all[i as int]);
        }
        kept.push(row);
        i += 1;
    }
    let total: usize = kept.len();
    let mut start: usize = 0;
    while start < total && kept[start].len() == 0
        invariant
            start <= total == kept@.len() == all.len(),
            forall|k: int| 0 <= k < total ==> (#[trigger] kept@[k])@ == all[k],
            forall|k: int| 0 <= k < start ==> (#[trigger] all[k]).len() == 0,
        decreases total - start,
    {
        proof {
            assert(kept@[start as int]@ == all[start as int]);
        }
        start += 1;
    }
    let mut end: usize = total;
    while end > start && kept[end - 1].len() == 0
        invariant
            start <= end <= total == kept@.len() == all.len(),
            forall|k: int| 0 <= k < total ==> (#[trigger] kept@[k])@ == all[k],
            forall|k: int| end <= k < total ==> (#[trigger] all[k]).len() == 0,
        decreases end,
    {
        proof {
            assert(kept@[end - 1]@ == all[end - 1]);
        }
        end -= 1;
    }
    let ghost shown = all.subrange(start as int, end as int);
    proof {
        if start < total {
            assert(kept@[start as int]@ == all[start as int]);
        }
        lemma_lead(all, start as int);
        let rest = all.skip(start as int);
        assert forall|k: int| end - start <= k < rest.len() implies (#[trigger] rest[k]).len()
            == 0 by {
            assert(rest[k] == all[k + start]);
        }
        if end > start {
            assert(kept@[end - 1]@ == all[end - 1]);
            assert(rest[end - start - 1] == all[end - 1]);
        }
        lemma_tail(rest, end - start);
        assert(rest.take(end - start) =~= shown);
        assert(shown == drawn_rows(views(rows@)));
    }
    let indent: usize = find_indent(&kept, start, end, Ghost(shown));
    let mut out: Vec<String> = Vec::new();
    let mut k: usize = start;
    while k < end
        invariant
            start <= k <= end <= kept@.len() == all.len(),
            forall|m: int| 0 <= m < all.len() ==> (#[trigger] kept@[m])@ == all[m],
            shown == all.subrange(start as int, end as int),
            out@.len() == k - start,
            forall|m: int|
                0 <= m < k - start ==> (#[trigger] out@[m])@ == outdented(
                    shown,
                    indent as int,
                )[m],
        decreases end - k,
    {
        let n: usize = kept[k].len();
        let from: usize = if n <= indent {
            n
        } else {
            indent
        };
        let row: String = string_of(&kept[k], from, n);
        proof {
            assert(kept@[k as int]@ == all[k as int]);
            assert(shown[k - start] == all[k as int]);
            assert(row@ =~= outdented(shown, indent as int)[k - start]);
        }
        out.push(row);
        k += 1;
    }
    proof {
        assert(views(out@) =~= outdented(shown, indent as int));
    }
    join(&out, '\n')
}

fn find_indent(
    kept: &Vec<Vec<char>>,
    start: usize,
    end: usize,
    Ghost(shown): Ghost<Seq<Seq<char>>>,
) -> (r: usize)
    requires
        start <= end <= kept@.len(),
        shown.len() == end - start,
        forall|k: int| 0 <= k < shown.len() ==> #[trigger] shown[k] == kept@[k + start]@,
    ensures
        r == shared_indent(shown),
{
    let mut least: usize = 0;
    let mut k: usize = start;
    proof {
        assert(shown.take(0) =~= Seq::<Seq<char>>::empty());
    }
    while k < end
        invariant
            start <= k <= end <= kept@.len(),
            shown.len() == end - start,
            forall|m: int| 0 <= m < shown.len() ==> #[trigger] shown[m] == kept@[m + start]@,
            least == shared_indent(shown.take(k - start)),
        decreases end - k,
    {
        let n: usize = count_run(&kept[k], 0, ' ');
        proof {
            let now = shown.take(k + 1 - start);
            assert(now.drop_last() =~= shown.take(k - start));
            assert(now.last() == shown[k - start]);
            assert(kept@[k as int]@.skip(0) =~= shown[k - start]);
        }
        if k == start || (kept[k].len() > 0 && n < least) {
            least = n;
        }
        k += 1;
    }
    proof {
        assert(shown.take(shown.len() as int) =~= shown);
    }
    least
}

} // verus!

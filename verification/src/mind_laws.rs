//! What the outline editor does with a key and with the mouse, and where its
//! rows are.

use vstd::prelude::*;

use crate::geometry::Rect;
use crate::keys::{Key, KeyInput};
use crate::mind_app::{MindView, Mode};
use crate::mind_render::marker;
use crate::mindmap::Kind;
use crate::outline::{lemma_item_lines, outline_node, OutlineNode};
use crate::outline_laws::{
    lemma_drop_takes_the_place_of_the_row_below, lemma_end_in_doc, lemma_outline_wf,
    lemma_set_text_changes_one_text,
};
use crate::paint::{Ink, PaintView};
use crate::pointer::{drag_key, last_at, slot_of, sort_over, DragView, MouseInput, MouseKind};
use crate::text::{trim, trim_start};

verus! {

/// Letting go of a key does nothing.
pub proof fn lemma_outline_ignores_a_release(m: MindView, k: KeyInput)
    requires
        k.release,
    ensures
        m.keyed(k) == m,
{
}

/// Enter opens the selected node with its own text; the document stays as it
/// is.
pub proof fn lemma_enter_opens_the_selected_node(m: MindView, k: KeyInput, id: u64)
    requires
        !k.release,
        k.key == Key::Enter,
        m.mode == Mode::Normal,
        m.selected == Some(id),
        m.tree().nodes.contains_key(id),
    ensures
        ({
            let n = m.keyed(k);
            &&& n.mode == Mode::Editing(id)
            &&& n.editing_text == m.tree().nodes[id].text
            &&& n.doc == m.doc && n.endings == m.endings && n.selected == m.selected
        }),
{
}

/// A character goes behind what was typed, and the key that takes one back
/// undoes it.
pub proof fn lemma_outline_typing_can_be_taken_back(
    m: MindView,
    k: KeyInput,
    back: KeyInput,
    id: u64,
    c: char,
)
    requires
        !k.release,
        !back.release,
        k.key == Key::Char(c),
        back.key == Key::Backspace,
        m.mode == Mode::Editing(id),
    ensures
        m.keyed(k).editing_text.len() == m.editing_text.len() + 1,
        m.keyed(k).editing_text.last() == c,
        m.keyed(k).doc == m.doc,
        m.keyed(k).mode == m.mode,
        m.keyed(k).should_quit == m.should_quit,
        m.keyed(k).wants_save == m.wants_save,
        m.keyed(k).keyed(back) == m,
{
    assert(m.editing_text.push(c).drop_last() =~= m.editing_text);
}

/// Leaving a node's text, by either key, gives that node what was typed and
/// leaves the rest of the outline as it was. Nothing is selected then.
pub proof fn lemma_leaving_writes_the_text(m: MindView, k: KeyInput, id: u64)
    requires
        !k.release,
        k.key == Key::Enter || k.key == Key::Esc,
        m.mode == Mode::Editing(id),
        m.doc.len() <= u64::MAX,
        m.tree().nodes.contains_key(id),
    ensures
        ({
            let n = m.keyed(k);
            let was = m.tree().nodes[id];
            &&& n.mode == Mode::Normal && n.selected is None && n.editing_text.len() == 0
            &&& n.tree().roots == m.tree().roots
            &&& n.tree().nodes.dom() == m.tree().nodes.dom()
            &&& forall|j: u64|
                j != id && m.tree().nodes.contains_key(j) ==> #[trigger] n.tree().nodes[j]
                    == m.tree().nodes[j]
            &&& n.tree().nodes[id].text == match was.kind {
                Kind::Heading(_) => trim(m.editing_text),
                Kind::ListItem(_) => trim_start(m.editing_text),
            }
            &&& n.tree().nodes[id].kind == was.kind && n.tree().nodes[id].line == was.line
            &&& n.doc.len() == m.doc.len()
            &&& forall|i: int|
                0 <= i < m.doc.len() && i != was.line ==> #[trigger] n.doc[i] == m.doc[i]
        }),
{
    lemma_outline_wf(m.doc);
    lemma_item_lines(m.doc);
    lemma_end_in_doc(m.doc, id - 1);
    assert(m.tree().nodes[id] == outline_node(m.doc, id - 1));
    lemma_set_text_changes_one_text(m.doc, id, m.editing_text);
    let n = m.keyed(k);
    assert(n.tree().nodes.dom() =~= m.tree().nodes.dom());
}

/// What the other keys do while nothing is typed: q asks to leave, s asks to
/// save, escape clears the selection, and no key changes the document.
pub proof fn lemma_outline_other_keys(m: MindView, k: KeyInput)
    requires
        !k.release,
        m.mode == Mode::Normal,
    ensures
        m.keyed(k).doc == m.doc,
        m.keyed(k).should_quit == (m.should_quit || k.key == Key::Char('q')),
        m.keyed(k).wants_save == (m.wants_save || k.key == Key::Char('s')),
        k.key == Key::Esc ==> m.keyed(k).selected is None && m.keyed(k).mode == Mode::Normal,
        m.keyed(k).mode != m.mode ==> k.key == Key::Enter && m.selected is Some,
{
}

/// Pressing on a row and letting go at once selects that row's node, and
/// changes nothing else that can be seen.
pub proof fn lemma_click_selects_the_row(m: MindView, down: MouseInput, up: MouseInput, i: int)
    requires
        down.kind == MouseKind::Down,
        up.kind == MouseKind::Up,
        last_at(m.sort.items, down.column, down.row) == Some(m.sort.items[i]),
    ensures
        ({
            let n = m.moused(down).moused(up);
            &&& n.selected == Some(m.sort.items[i].1)
            &&& n.doc == m.doc && n.mode == m.mode && n.editing_text == m.editing_text
            &&& n.sort.drag == DragView::<u64>::Idle
            &&& m.moused(down).selected == m.selected
        }),
{
}

/// A node that is let go over a row which is no deeper than the one above
/// the gap becomes a child of that row's parent, where its kind can nest
/// there; a refusal leaves the document as it was and says why.
pub proof fn lemma_drop_moves_the_node(m: MindView, up: MouseInput, held: u64, slot: usize)
    requires
        up.kind == MouseKind::Up,
        m.doc.len() <= u64::MAX,
        drag_key(m.sort.drag) == Some(held),
        m.sort.area is Some,
        m.tree().nodes.contains_key(held),
        slot_of(m.sort.items, up.column, up.row) == slot,
        0 < slot < m.tree().flat(Some(held)).len(),
        ({
            let flat = m.tree().flat(Some(held));
            m.tree().nodes[flat[slot as int]].depth <= m.tree().nodes[flat[slot - 1]].depth
        }),
    ensures
        ({
            let t = m.tree();
            let below = t.flat(Some(held))[slot as int];
            let parent = t.nodes[below].parent;
            let n = m.moused(up);
            let idle = MindView { sort: n.sort, ..m };
            exists|index: int|
                {
                    let (after, reply) = #[trigger] idle.moved(held, parent, index);
                    &&& 0 <= index < t.other_children(parent, held).len()
                    &&& t.other_children(parent, held)[index] == below
                    &&& n.doc == after.doc && n.endings == after.endings
                    &&& reply is Ok ==> n.status.len() == 0 && n.mode == Mode::Normal
                    &&& reply is Err ==> n.doc == m.doc && n.status == reply->Err_0 && n.selected
                        == m.selected
                }
        }),
{
    lemma_drop_takes_the_place_of_the_row_below(m.doc, held, slot as int);
    let (parent, index) = m.tree().resolve(m.tree().flat(Some(held)), slot as int);
    let n = m.moused(up);
    let idle = MindView { sort: n.sort, ..m };
    assert(idle.tree() == m.tree());
    let (after, reply) = idle.moved(held, parent, index);
    assert(n.doc == after.doc);
}

/// The rows go down the screen one below the other, each set in by two
/// columns for each node above it in the tree, and end at the same column.
pub proof fn lemma_rows_go_down(m: MindView, area: Rect, i: int)
    requires
        area.fits(),
        0 <= i < m.rows().len(),
        sort_over(m.sort) is None,
        area.y + i < area.y + area.height,
        0 <= m.tree().nodes[m.rows()[i]].depth,
        2 * m.tree().nodes[m.rows()[i]].depth < area.width,
    ensures
        ({
            let r = m.row(area, i);
            &&& r.y == area.y + i && r.height == 1
            &&& r.x == area.x + 2 * m.tree().nodes[m.rows()[i]].depth
            &&& r.x + r.width == area.x + area.width
            &&& m.items(area)[i] == (r, m.rows()[i])
        }),
{
}

/// While a node is dragged one row is left free for it: the rows above the
/// gap stay where they are and those below go down by one.
pub proof fn lemma_gap_is_left_free(m: MindView, area: Rect, i: int, slot: usize)
    requires
        area.fits(),
        0 <= i < m.rows().len(),
        sort_over(m.sort) == Some(slot),
        area.y + i + 1 < area.y + area.height,
        0 <= m.tree().nodes[m.rows()[i]].depth,
        2 * m.tree().nodes[m.rows()[i]].depth < area.width,
    ensures
        i < slot ==> m.row(area, i).y == area.y + i,
        i >= slot ==> m.row(area, i).y == area.y + i + 1,
        m.row(area, i).y != area.y + slot,
{
}

/// What a row shows: its node's sign, a space and its text, or what is being
/// typed in it; just the selected row is colored.
pub proof fn lemma_row_shows_its_node(m: MindView, area: Rect, i: int)
    requires
        0 <= i < m.rows().len(),
    ensures
        ({
            let id = m.rows()[i];
            let n: OutlineNode = m.tree().nodes[id];
            m.row_shown(area, i) matches PaintView::Text { area: at, text, look } && {
                let sign = match n.kind {
                    Kind::Heading(level) => level as int,
                    Kind::ListItem(_) => 1,
                };
                &&& at == m.row(area, i)
                &&& look.bold == n.kind is Heading
                &&& (look.fg == Some(Ink::Cyan)) == (m.selected == Some(id))
                &&& text.len() > sign && text[sign] == ' '
                &&& text.take(sign) == marker(n.kind)
                &&& forall|k: int|
                    0 <= k < sign ==> #[trigger] text[k] == match n.kind {
                        Kind::Heading(_) => '#',
                        Kind::ListItem(b) => b,
                    }
                &&& m.mode != Mode::Editing(id) ==> text.skip(sign + 1) == n.text
                &&& m.mode == Mode::Editing(id) ==> text.skip(sign + 1) == m.editing_text.push(
                    '▏',
                )
            }
        }),
{
    let id = m.rows()[i];
    let n: OutlineNode = m.tree().nodes[id];
    let sign = match n.kind {
        Kind::Heading(level) => level as int,
        Kind::ListItem(_) => 1,
    };
    lemma_marker(n.kind);
    let typed = m.typed_in(id);
    let text = match typed {
        Some(text) => (marker(n.kind).push(' ') + text).push('▏'),
        None => marker(n.kind).push(' ') + n.text,
    };
    assert(text.take(sign) =~= marker(n.kind));
    assert forall|k: int| 0 <= k < sign implies #[trigger] text[k] == match n.kind {
        Kind::Heading(_) => '#',
        Kind::ListItem(b) => b,
    } by {
        assert(text[k] == marker(n.kind)[k]);
    }
    if typed is Some {
        assert(text.skip(sign + 1) =~= m.editing_text.push('▏'));
    } else {
        assert(text.skip(sign + 1) =~= n.text);
    }
}

proof fn lemma_marker(kind: Kind)
    ensures
        marker(kind).len() == match kind {
            Kind::Heading(level) => level as int,
            Kind::ListItem(_) => 1,
        },
        forall|k: int|
            0 <= k < marker(kind).len() ==> #[trigger] marker(kind)[k] == match kind {
                Kind::Heading(_) => '#',
                Kind::ListItem(b) => b,
            },
{
}

} // verus!

//! What a key does: to a text that is being typed, to a table that is open,
//! and to what is selected.

use vstd::prelude::*;

use crate::app::{end_name, end_of, AppView, ModeView, RequestView, MIN_H};
use crate::app_laws::lemma_noted_first;
use crate::editing::{inner_width, text_height};
use crate::geometry::max;
use crate::keys::{full_shape_name, next_ends, Key, KeyInput};
use crate::model::{
    color_text, find_node, lemma_color_reads_back, lemma_color_writes_back, lemma_find_edge,
    lemma_find_node, lemma_shape_reads_back, next_color, opt_color_text, other_shape, preset_of,
    CanvasView, ColorView, EdgeEnd, EdgeView, KindView, NodeView,
};
use crate::mouse_laws::lemma_set_rect;
use crate::request_laws::{
    differs_in_box, differs_in_connector, is_first_box, is_first_connector,
    lemma_delete_takes_one_box, lemma_delete_takes_one_connector,
    lemma_set_color_changes_the_color, lemma_set_connector_color_changes_the_color,
    lemma_set_ends_changes_the_ends, lemma_set_label_changes_the_label,
    lemma_set_shape_changes_the_shape, lemma_set_text_changes_the_text, names_color,
};
use crate::table::{formatted, Cells};
use crate::table_edit_laws::{
    even_rows, lemma_arrow_goes_to_the_next_cell, lemma_deleted_col_is_the_one_under_the_cursor,
    lemma_deleted_row_is_the_one_under_the_cursor, lemma_enter_goes_down,
    lemma_inserted_col_is_behind_the_cursor, lemma_inserted_row_is_below_the_cursor,
    lemma_tab_goes_across, typed_in,
};
use crate::target::SelectedView;

verus! {

/// A key that is pressed, with nothing held.
pub open spec fn pressed(k: KeyInput, key: Key) -> bool {
    k.key == key && !k.release && !k.ctrl && !k.alt
}

/// A key that is pressed with control held.
pub open spec fn with_ctrl(k: KeyInput, key: Key) -> bool {
    k.key == key && !k.release && k.ctrl
}

/// Letting go of a key does nothing.
pub proof fn lemma_release_does_nothing(a: AppView, k: KeyInput)
    requires
        k.release,
    ensures
        a.keyed(k) == a,
{
}

/// Whether a board differs from another in the height of one box at most,
/// which is no lower.
pub open spec fn grew(c: CanvasView, d: CanvasView, id: Seq<char>) -> bool {
    &&& d.edges == c.edges
    &&& d.nodes.len() == c.nodes.len()
    &&& forall|k: int|
        0 <= k < c.nodes.len() ==> {
            let (was, now) = (c.nodes[k], #[trigger] d.nodes[k]);
            &&& was.id != id ==> now == was
            &&& now.id == was.id && now.kind == was.kind && now.color == was.color && now.shape
                == was.shape
            &&& now.rect.x == was.rect.x && now.rect.y == was.rect.y
            &&& now.rect.width == was.rect.width
            &&& now.rect.height >= was.rect.height
        }
}

/// Whether a box, where it is on the board, has any columns.
pub open spec fn has_columns(c: CanvasView, id: Seq<char>) -> bool {
    c.has_node(id) ==> c.node(id)->0.rect.width > 0
}

/// A character that is typed comes behind the text typed so far. The board
/// keeps its texts until the edit is left; at most the box that is typed into
/// grows.
pub proof fn lemma_typed_character_comes_last(
    a: AppView,
    target: SelectedView,
    c: char,
    k: KeyInput,
)
    requires
        a.mode == ModeView::Editing(target),
        pressed(k, Key::Char(c)),
        a.key_fits(k),
        target matches SelectedView::Node(id) ==> has_columns(a.canvas, id),
    ensures
        ({
            let b = a.keyed(k);
            &&& b.editing_text == a.editing_text.push(c)
            &&& b.mode == a.mode
            &&& target matches SelectedView::Node(id) ==> grew(a.canvas, b.canvas, id)
            &&& target is Edge ==> b.canvas == a.canvas
        }),
{
    if target is Node {
        let id = target->Node_0;
        lemma_grown(a.typed(c), id);
    }
}

/// Enter is a line break in a box, and ends a label.
pub proof fn lemma_enter_breaks_the_line(a: AppView, target: SelectedView, k: KeyInput)
    requires
        a.mode == ModeView::Editing(target),
        pressed(k, Key::Enter),
        a.key_fits(k),
        target matches SelectedView::Node(id) ==> has_columns(a.canvas, id),
    ensures
        ({
            let b = a.keyed(k);
            &&& target matches SelectedView::Node(id) ==> b.editing_text == a.editing_text.push(
                '\n',
            ) && b.mode == a.mode && grew(a.canvas, b.canvas, id)
            &&& target is Edge ==> b == a.committed()
        }),
{
    if target is Node {
        lemma_grown(a.typed('\n'), target->Node_0);
    }
}

/// Backspace takes the last character of what is being typed back, in a box,
/// a label or a cell, and nothing of an empty text. Typing a character and
/// taking it back leaves the text as it was.
pub proof fn lemma_backspace_takes_the_last_character(a: AppView, k: KeyInput)
    requires
        !(a.mode is Normal),
        pressed(k, Key::Backspace),
    ensures
        ({
            let b = a.keyed(k);
            &&& a.editing_text.len() == 0 ==> b.editing_text.len() == 0
            &&& a.editing_text.len() > 0 ==> {
                &&& b.editing_text.len() == a.editing_text.len() - 1
                &&& forall|i: int|
                    0 <= i < b.editing_text.len() ==> #[trigger] b.editing_text[i]
                        == a.editing_text[i]
            }
            &&& b.canvas == a.canvas && b.table == a.table && b.mode == a.mode
        }),
        forall|c: char| (#[trigger] a.typed(c)).untyped().editing_text == a.editing_text,
{
    assert forall|c: char| (#[trigger] a.typed(c)).untyped().editing_text == a.editing_text by {
        assert(a.editing_text.push(c).drop_last() =~= a.editing_text);
    }
}

proof fn lemma_grown(a: AppView, id: Seq<char>)
    requires
        a.text_fits(id, a.editing_text),
        has_columns(a.canvas, id),
    ensures
        grew(a.canvas, a.grown(id).canvas, id),
        a.grown(id).editing_text == a.editing_text,
        a.grown(id).mode == a.mode,
        a.grown(id).camera == a.camera,
{
    if a.canvas.has_node(id) {
        let r = a.canvas.node(id)->0.rect;
        let needed = text_height(a.editing_text, inner_width(r.width));
        if needed > r.height {
            let room = max(a.area.y_end() - a.screen_y(r.y), MIN_H as int);
            let h = max(
                r.height as int,
                if needed < room {
                    needed
                } else {
                    room
                },
            ) as u16;
            lemma_find_node(a.canvas.nodes, id);
            let i = find_node(a.canvas.nodes, id)->0;
            reveal(AppView::applied);
            lemma_noted_first(a, RequestView::SetRect { id, x: r.x, y: r.y, w: r.width, h });
        }
    }
}

/// While a text is typed into a box, the box grows down as far as the text
/// needs: to the rows of the text and the border, or to the bottom of the
/// canvas. It never gets lower.
pub proof fn lemma_box_grows_with_its_text(a: AppView, id: Seq<char>)
    requires
        a.canvas.has_node(id),
        a.canvas.node(id)->0.rect.width > 0,
        a.canvas.node(id)->0.rect.height > 0,
        text_height(a.editing_text, inner_width(a.canvas.node(id)->0.rect.width)) <= u16::MAX,
    ensures
        ({
            let b = a.grown(id);
            let (was, now) = (a.canvas.node(id)->0.rect, b.canvas.node(id)->0.rect);
            let needed = text_height(a.editing_text, inner_width(was.width));
            let room = a.area.y_end() - (was.y - a.camera.1 + a.area.y);
            &&& b.canvas.has_node(id)
            &&& now.x == was.x && now.y == was.y && now.width == was.width
            &&& now.height >= was.height
            &&& needed <= was.height ==> now.height == was.height
            &&& was.height <= needed <= room ==> now.height == needed
            &&& was.height <= room < needed && room >= MIN_H ==> now.height == room
            &&& room < was.height ==> now.height == was.height || now.height <= MIN_H
        }),
{
    let r = a.canvas.node(id)->0.rect;
    let needed = text_height(a.editing_text, inner_width(r.width));
    if needed > r.height {
        let room = max(a.area.y_end() - a.screen_y(r.y), MIN_H as int);
        let h = max(
            r.height as int,
            if needed < room {
                needed
            } else {
                room
            },
        ) as u16;
        lemma_set_rect(a, id, r.x, r.y, r.width, h);
    }
}

/// Leaving an edit writes what was typed to the box: its text, where it is a
/// text box, is what was typed, and nothing else changes.
pub proof fn lemma_commit_writes_the_text(a: AppView, id: Seq<char>, i: int)
    requires
        a.mode == ModeView::Editing(SelectedView::Node(id)),
        is_first_box(a.canvas, id, i),
    ensures
        ({
            let b = a.committed();
            &&& b.mode is Normal && b.editing_text.len() == 0
            &&& differs_in_box(a.canvas, b.canvas, i)
            &&& b.canvas.nodes[i].rect == a.canvas.nodes[i].rect
            &&& a.canvas.nodes[i].kind is Text ==> b.canvas.nodes[i].kind == KindView::Text(
                a.editing_text,
            )
            &&& !(a.canvas.nodes[i].kind is Text) ==> b.canvas.nodes[i].kind
                == a.canvas.nodes[i].kind
        }),
{
    let s = AppView { editing_text: Seq::empty(), ..a };
    lemma_set_text_changes_the_text(s, id, a.editing_text, i);
    reveal(AppView::applied);
    lemma_noted_first(s, RequestView::SetText { id, text: a.editing_text });
}

/// Leaving the edit of a label writes it to the connector; an empty one
/// leaves none.
pub proof fn lemma_commit_writes_the_label(a: AppView, id: Seq<char>, i: int)
    requires
        a.mode == ModeView::Editing(SelectedView::Edge(id)),
        is_first_connector(a.canvas, id, i),
    ensures
        ({
            let b = a.committed();
            &&& b.mode is Normal && b.editing_text.len() == 0
            &&& differs_in_connector(a.canvas, b.canvas, i)
            &&& a.editing_text.len() > 0 ==> b.canvas.edges[i].label == Some(a.editing_text)
            &&& a.editing_text.len() == 0 ==> b.canvas.edges[i].label is None
        }),
{
    let s = AppView { editing_text: Seq::empty(), ..a };
    lemma_set_label_changes_the_label(s, id, Some(a.editing_text), i);
    reveal(AppView::applied);
    lemma_noted_first(s, RequestView::SetLabel { id, label: Some(a.editing_text) });
}

/// Leaving a table writes it to its box as text, the cell that was being
/// typed included.
pub proof fn lemma_commit_writes_the_table(
    a: AppView,
    id: Seq<char>,
    row: usize,
    col: usize,
    t: Cells,
    i: int,
)
    requires
        a.mode == ModeView::EditingCell(id, row, col),
        row < a.table.len(),
        col < a.table[row as int].len(),
        typed_in(a, row as int, col as int, t),
        is_first_box(a.canvas, id, i),
        a.canvas.nodes[i].kind is Text,
    ensures
        ({
            let b = a.committed();
            &&& b.mode is Normal && b.table.len() == 0
            &&& differs_in_box(a.canvas, b.canvas, i)
            &&& b.canvas.nodes[i].rect == a.canvas.nodes[i].rect
            &&& b.canvas.nodes[i].kind == KindView::Text(formatted(t))
        }),
{
    let s = a.synced(row as int, col as int);
    assert forall|j: int| 0 <= j < t.len() implies #[trigger] t[j] == s.table[j] by {
        assert(t[j] =~= s.table[j]);
    }
    assert(s.table =~= t);
    let u = AppView { table: Seq::empty(), ..s };
    lemma_set_text_changes_the_text(u, id, formatted(t), i);
    reveal(AppView::applied);
    lemma_noted_first(u, RequestView::SetText { id, text: formatted(t) });
}

/// What a key does in an open table. Control with an arrow adds or takes out:
/// right a column behind the cursor, left the column under it, down a row
/// below it, up the row under it. An arrow alone, tab and enter move the
/// cursor. Escape leaves the table.
pub proof fn lemma_keys_in_a_table(
    a: AppView,
    id: Seq<char>,
    row: usize,
    col: usize,
    t: Cells,
    k: KeyInput,
)
    requires
        a.mode == ModeView::EditingCell(id, row, col),
        row < a.table.len() < usize::MAX,
        col < a.table[row as int].len() < usize::MAX,
        even_rows(a.table),
        typed_in(a, row as int, col as int, t),
    ensures
        ({
            let b = a.keyed(k);
            &&& with_ctrl(k, Key::Up) && row > 0 && t.len() > 2 ==> {
                &&& b.table.len() == t.len() - 1
                &&& forall|i: int|
                    0 <= i < b.table.len() ==> #[trigger] b.table[i] == if i < row {
                        t[i]
                    } else {
                        t[i + 1]
                    }
            }
            &&& with_ctrl(k, Key::Down) ==> {
                &&& b.table.len() == t.len() + 1
                &&& forall|i: int|
                    0 <= i < b.table.len() && i != row + 1 ==> #[trigger] b.table[i] == if i
                        <= row {
                        t[i]
                    } else {
                        t[i - 1]
                    }
                &&& b.mode == ModeView::EditingCell(id, (row + 1) as usize, col)
            }
            &&& with_ctrl(k, Key::Left) && t[0].len() > 1 ==> {
                &&& b.table.len() == t.len()
                &&& forall|i: int, j: int|
                    0 <= i < t.len() && 0 <= j < t[i].len() - 1 ==> #[trigger] b.table[i][j]
                        == if j < col {
                        t[i][j]
                    } else {
                        t[i][j + 1]
                    }
            }
            &&& with_ctrl(k, Key::Right) ==> {
                &&& b.table.len() == t.len()
                &&& forall|i: int, j: int|
                    0 <= i < t.len() && 0 <= j <= t[i].len() && j != col + 1
                        ==> #[trigger] b.table[i][j] == if j <= col {
                        t[i][j]
                    } else {
                        t[i][j - 1]
                    }
                &&& b.mode == ModeView::EditingCell(id, row, (col + 1) as usize)
            }
            &&& pressed(k, Key::Up) ==> b.table == t && b.mode == ModeView::EditingCell(
                id,
                if row > 0 {
                    (row - 1) as usize
                } else {
                    row
                },
                col,
            )
            &&& pressed(k, Key::Down) ==> b.table == t && b.mode == ModeView::EditingCell(
                id,
                if row + 1 < t.len() {
                    (row + 1) as usize
                } else {
                    row
                },
                col,
            )
            &&& pressed(k, Key::Left) ==> b.table == t && b.mode == ModeView::EditingCell(
                id,
                row,
                if col > 0 {
                    (col - 1) as usize
                } else {
                    col
                },
            )
            &&& pressed(k, Key::Right) ==> b.table == t && b.mode == ModeView::EditingCell(
                id,
                row,
                if col + 1 < t[0].len() {
                    (col + 1) as usize
                } else {
                    col
                },
            )
            &&& pressed(k, Key::Enter) ==> b.mode == ModeView::EditingCell(
                id,
                (row + 1) as usize,
                col,
            )
            &&& pressed(k, Key::Tab) && col + 1 < t[0].len() ==> b.mode == ModeView::EditingCell(
                id,
                row,
                (col + 1) as usize,
            )
            &&& pressed(k, Key::Tab) && col + 1 == t[0].len() ==> b.mode == ModeView::EditingCell(
                id,
                (row + 1) as usize,
                0,
            )
            &&& pressed(k, Key::BackTab) && col > 0 ==> b.mode == ModeView::EditingCell(
                id,
                row,
                (col - 1) as usize,
            )
            &&& pressed(k, Key::Esc) ==> b.mode is Normal
            &&& (k.key matches Key::Char(c) && !k.ctrl && !k.release) ==> b.editing_text
                == a.editing_text.push(k.key->Char_0) && b.table == a.table && b.mode == a.mode
        }),
{
    assert(t[0].len() == a.table[0].len() && t[row as int].len() == a.table[row as int].len());
    assert(a.table[row as int].len() == a.table[0].len());
    assert forall|i: int| 0 <= i < t.len() implies (#[trigger] t[i]).len() == t[0].len() by {
        assert(t[i].len() == a.table[i].len());
    }
    if k.ctrl && !k.release {
        if k.key == Key::Up {
            lemma_deleted_row_is_the_one_under_the_cursor(a, id, row, col, t);
        } else if k.key == Key::Down {
            lemma_inserted_row_is_below_the_cursor(a, id, row, col, t);
        } else if k.key == Key::Left {
            lemma_deleted_col_is_the_one_under_the_cursor(a, id, row, col, t);
        } else if k.key == Key::Right {
            lemma_inserted_col_is_behind_the_cursor(a, id, row, col, t);
        }
    } else if !k.release {
        if k.key == Key::Up {
            lemma_arrow_goes_to_the_next_cell(a, id, row, col, -1, 0, t);
        } else if k.key == Key::Down {
            lemma_arrow_goes_to_the_next_cell(a, id, row, col, 1, 0, t);
        } else if k.key == Key::Left {
            lemma_arrow_goes_to_the_next_cell(a, id, row, col, 0, -1, t);
        } else if k.key == Key::Right {
            lemma_arrow_goes_to_the_next_cell(a, id, row, col, 0, 1, t);
        } else if k.key == Key::Tab || k.key == Key::BackTab {
            lemma_tab_goes_across(a, id, row, col, t);
        } else if k.key == Key::Enter {
            lemma_enter_goes_down(a, id, row, col, t);
        }
    }
}

/// Whether a color comes after another in the cycle: none, the six presets,
/// none again. A hex color is followed by none.
pub open spec fn follows(was: Option<ColorView>, now: Option<ColorView>) -> bool {
    match (was, now) {
        (None, Some(ColorView::Preset(n))) => n == 1,
        (Some(ColorView::Preset(m)), Some(ColorView::Preset(n))) => m < 6 && n == m + 1,
        (Some(ColorView::Preset(m)), None) => m >= 6,
        (Some(ColorView::Hex(_)), None) => true,
        _ => false,
    }
}

proof fn lemma_color_follows(c: Option<ColorView>, now: Option<ColorView>)
    requires
        names_color(
            opt_color_text(next_color(c)),
            now,
        ),
        c matches Some(ColorView::Preset(n)) ==> 1 <= n,
    ensures
        follows(c, now),
{
    let next = next_color(c);
    if next is Some {
        lemma_color_reads_back(next->0);
        lemma_color_writes_back(color_text(next->0));
        assert(preset_of(color_text(next->0)) == Some(
            next->0->Preset_0,
        ));
    }
}

/// The color key gives the selected box the next color and changes nothing
/// else on the board.
pub proof fn lemma_color_key_takes_the_next_color(a: AppView, id: Seq<char>, i: int, k: KeyInput)
    requires
        a.mode is Normal,
        pressed(k, Key::Char('c')),
        a.selected == Some(SelectedView::Node(id)),
        is_first_box(a.canvas, id, i),
        a.canvas.nodes[i].color matches Some(ColorView::Preset(n)) ==> 1 <= n,
    ensures
        ({
            let b = a.keyed(k);
            &&& differs_in_box(a.canvas, b.canvas, i)
            &&& follows(a.canvas.nodes[i].color, b.canvas.nodes[i].color)
            &&& b.canvas.nodes[i] == (NodeView {
                color: b.canvas.nodes[i].color,
                ..a.canvas.nodes[i]
            })
        }),
{
    lemma_find_node(a.canvas.nodes, id);
    let color = opt_color_text(next_color(a.canvas.nodes[i].color));
    lemma_set_color_changes_the_color(a, id, color, i);
    let b = a.dispatched(RequestView::SetColor { id, color }).0;
    lemma_color_follows(a.canvas.nodes[i].color, b.canvas.nodes[i].color);
}

/// The color key gives the selected connector the next color and changes
/// nothing else on the board.
pub proof fn lemma_color_key_recolors_the_connector(
    a: AppView,
    id: Seq<char>,
    i: int,
    k: KeyInput,
)
    requires
        a.mode is Normal,
        pressed(k, Key::Char('c')),
        a.selected == Some(SelectedView::Edge(id)),
        is_first_connector(a.canvas, id, i),
        a.canvas.edges[i].color matches Some(ColorView::Preset(n)) ==> 1 <= n,
    ensures
        ({
            let b = a.keyed(k);
            &&& differs_in_connector(a.canvas, b.canvas, i)
            &&& follows(a.canvas.edges[i].color, b.canvas.edges[i].color)
            &&& b.canvas.edges[i] == (EdgeView {
                color: b.canvas.edges[i].color,
                ..a.canvas.edges[i]
            })
        }),
{
    lemma_find_edge(a.canvas.edges, id);
    let color = opt_color_text(next_color(a.canvas.edges[i].color));
    lemma_set_connector_color_changes_the_color(a, id, color, i);
    let b = a.dispatched(RequestView::SetEdgeColor { id, color }).0;
    lemma_color_follows(a.canvas.edges[i].color, b.canvas.edges[i].color);
}

/// The shape key gives the selected box the other shape: twice gives back the
/// one it had.
pub proof fn lemma_shape_key_takes_the_other_shape(
    a: AppView,
    id: Seq<char>,
    i: int,
    k: KeyInput,
)
    requires
        a.mode is Normal,
        pressed(k, Key::Char('x')),
        a.selected == Some(SelectedView::Node(id)),
        is_first_box(a.canvas, id, i),
    ensures
        ({
            let b = a.keyed(k);
            &&& differs_in_box(a.canvas, b.canvas, i)
            &&& b.canvas.nodes[i].shape != a.canvas.nodes[i].shape
            &&& b.canvas.nodes[i] == (NodeView {
                shape: b.canvas.nodes[i].shape,
                ..a.canvas.nodes[i]
            })
        }),
{
    lemma_find_node(a.canvas.nodes, id);
    let shape = full_shape_name(
        other_shape(a.canvas.nodes[i].shape),
    );
    lemma_set_shape_changes_the_shape(a, id, shape, i);
    lemma_shape_reads_back(other_shape(a.canvas.nodes[i].shape));
    reveal_strlit("rectangle");
    reveal_strlit("rounded");
    assert("rectangle"@.len() != "rounded"@.len());
}

/// The shape key gives the selected connector the next ends. From a head
/// where it arrives they go to both, to neither, to one where it leaves, and
/// back.
pub proof fn lemma_shape_key_takes_the_next_ends(
    a: AppView,
    id: Seq<char>,
    i: int,
    k: KeyInput,
)
    requires
        a.mode is Normal,
        pressed(k, Key::Char('x')),
        a.selected == Some(SelectedView::Edge(id)),
        is_first_connector(a.canvas, id, i),
    ensures
        ({
            let b = a.keyed(k);
            let (was, now) = (a.canvas.edges[i], b.canvas.edges[i]);
            let heads = (was.from_end == EdgeEnd::Arrow, was.to_end == EdgeEnd::Arrow);
            &&& differs_in_connector(a.canvas, b.canvas, i)
            &&& now == (EdgeView { from_end: now.from_end, to_end: now.to_end, ..was })
            &&& (now.from_end == EdgeEnd::Arrow, now.to_end == EdgeEnd::Arrow) == match heads {
                (false, true) => (true, true),
                (true, true) => (false, false),
                (false, false) => (true, false),
                (true, false) => (false, true),
            }
        }),
{
    lemma_find_edge(a.canvas.edges, id);
    let (f, t) = next_ends(a.canvas.edges[i].from_end, a.canvas.edges[i].to_end);
    lemma_set_ends_changes_the_ends(
        a,
        id,
        end_name(f),
        end_name(t),
        i,
    );
    reveal_strlit("none");
    reveal_strlit("arrow");
    assert("none"@.len() != "arrow"@.len());
    assert(end_of("arrow"@) == EdgeEnd::Arrow);
}

/// The delete keys take out what is selected: a box with the connectors that
/// touch it, or a connector alone. Nothing is selected any more.
pub proof fn lemma_delete_key_takes_what_is_selected(a: AppView, k: KeyInput)
    requires
        a.mode is Normal,
        pressed(k, Key::Char('d')) || pressed(k, Key::Delete),
    ensures
        ({
            let b = a.keyed(k);
            &&& a.selected is None ==> b == a
            &&& a.selected matches Some(SelectedView::Node(id)) ==> {
                &&& b.canvas.nodes == a.canvas.nodes.filter(|n: NodeView| n.id != id)
                &&& b.canvas.edges == a.canvas.edges.filter(
                    |e: EdgeView| !(e.from == id || e.to == id),
                )
                &&& b.selected is None
            }
            &&& a.selected matches Some(SelectedView::Edge(id)) ==> {
                &&& b.canvas.nodes == a.canvas.nodes
                &&& b.canvas.edges == a.canvas.edges.filter(|e: EdgeView| e.id != id)
                &&& b.selected is None
            }
        }),
{
    match a.selected {
        Some(SelectedView::Node(id)) => lemma_delete_takes_one_box(a, id),
        Some(SelectedView::Edge(id)) => lemma_delete_takes_one_connector(a, id),
        None => {},
    }
}

/// Escape steps out: it closes the color picker, or else clears the
/// selection, or else quits. It never touches the board.
pub proof fn lemma_escape_steps_out(a: AppView, k: KeyInput)
    requires
        a.mode is Normal,
        pressed(k, Key::Esc),
    ensures
        ({
            let b = a.keyed(k);
            &&& b.canvas == a.canvas
            &&& a.color_picker is Some ==> b.color_picker is None && b.selected == a.selected
                && b.should_quit == a.should_quit
            &&& a.color_picker is None && a.selected is Some ==> b.selected is None
                && b.should_quit == a.should_quit
            &&& a.color_picker is None && a.selected is None ==> b.should_quit
        }),
{
    reveal(AppView::applied);
}

/// The keys that step through the history, save and quit.
pub proof fn lemma_other_keys(a: AppView, k: KeyInput)
    requires
        a.mode is Normal,
    ensures
        ({
            let b = a.keyed(k);
            &&& with_ctrl(k, Key::Char('z')) && a.undo.len() > 0 ==> b.canvas == a.undo.last()
                && b.redo.len() == a.redo.len() + 1
            &&& with_ctrl(k, Key::Char('y')) && a.redo.len() > 0 ==> b.canvas == a.redo.last()
                && b.undo.len() == a.undo.len() + 1
            &&& pressed(k, Key::Char('q')) ==> b.should_quit && b.canvas == a.canvas
            &&& pressed(k, Key::Char('s')) && a.save_path is Some ==> b.wants_save && b.canvas
                == a.canvas
            &&& pressed(k, Key::Enter) && a.selected is Some ==> b.mode == ModeView::Editing(
                a.selected->0,
            ) && b.canvas == a.canvas
        }),
{
    reveal(AppView::applied);
}

/// An edit opens with the text that the box or the label has, so that leaving
/// it at once changes nothing.
pub proof fn lemma_edit_opens_with_the_text(a: AppView, id: Seq<char>, i: int)
    ensures
        is_first_box(a.canvas, id, i) && a.canvas.nodes[i].kind is Text ==> ({
            let b = a.begun(SelectedView::Node(id));
            &&& a.canvas.nodes[i].kind == KindView::Text(b.editing_text)
            &&& b.canvas == a.canvas
            &&& b.committed().canvas.nodes[i].kind == a.canvas.nodes[i].kind
        }),
        is_first_connector(a.canvas, id, i) && a.canvas.edges[i].label is Some ==> ({
            let b = a.begun(SelectedView::Edge(id));
            &&& a.canvas.edges[i].label == Some(b.editing_text)
            &&& b.canvas == a.canvas
        }),
{
    if is_first_box(a.canvas, id, i) && a.canvas.nodes[i].kind is Text {
        lemma_find_node(a.canvas.nodes, id);
        let b = a.begun(SelectedView::Node(id));
        lemma_commit_writes_the_text(b, id, i);
    }
    if is_first_connector(a.canvas, id, i) {
        lemma_find_edge(a.canvas.edges, id);
    }
}

/// The table key opens the selected box as a table, on its first cell.
pub proof fn lemma_table_key_opens_the_table(a: AppView, k: KeyInput, id: Seq<char>, i: int)
    requires
        a.mode is Normal,
        pressed(k, Key::Char('t')),
        a.selected == Some(SelectedView::Node(id)),
        is_first_box(a.canvas, id, i),
        a.canvas.nodes[i].kind is Text,
    ensures
        a.keyed(k).mode == ModeView::EditingCell(id, 0, 0),
{
    lemma_find_node(a.canvas.nodes, id);
}

} // verus!

//! Every key and every mouse event keeps the editor's state well formed.

use vstd::prelude::*;

use crate::app::{AppView, ModeView, RequestView, UNDO_LIMIT};
use crate::app_laws::{kept, lemma_dispatch_keeps, lemma_history_steps};
use crate::geometry::Rect;
use crate::keys::{Key, KeyInput};
use crate::model::CellAnchor;
use crate::pointer::{drag_step, DidView, MouseInput};
use crate::target::{HitView, SelectedView};

verus! {

/// Whether a step keeps what `kept` names and gives no id.
pub open spec fn calm(a: AppView, b: AppView) -> bool {
    kept(a, b) && b.canvas.next_id == a.canvas.next_id
}

proof fn lemma_grown(a: AppView, id: Seq<char>)
    ensures
        calm(a, a.grown(id)),
{
    if let Some(node) = a.canvas.node(id) {
        let r = node.rect;
        let needed = crate::editing::text_height(
            a.editing_text,
            crate::editing::inner_width(r.width),
        );
        let room = crate::geometry::max(
            a.area.y_end() - a.screen_y(r.y),
            crate::app::MIN_H as int,
        );
        let h = crate::geometry::max(r.height as int, crate::geometry::min(needed, room));
        lemma_dispatch_keeps(
            a,
            RequestView::SetRect { id, x: r.x, y: r.y, w: r.width, h: h as u16 },
        );
    }
}

proof fn lemma_grown_table(a: AppView, id: Seq<char>, row: int, col: int)
    ensures
        calm(a, a.grown_table(id, row, col)),
{
    if let Some(node) = a.canvas.node(id) {
        let r = node.rect;
        let t = crate::editing::patched(a.table, row, col, crate::table::encoded(a.editing_text));
        let w = crate::geometry::max(
            (crate::table::full_width(t) % 65536) as int,
            r.width as int,
        );
        let h = crate::geometry::max(
            (crate::table::full_height(t) % 65536) as int,
            r.height as int,
        );
        lemma_dispatch_keeps(
            a,
            RequestView::SetRect { id, x: r.x, y: r.y, w: w as u16, h: h as u16 },
        );
    }
}

proof fn lemma_gone_to(a: AppView, id: Seq<char>, row: usize, col: usize)
    ensures
        calm(a, a.gone_to(id, row, col)),
{
    let loaded = AppView {
        editing_text: crate::table::decoded(
            crate::editing::cell_at(a.table, row as int, col as int),
        ),
        ..a
    };
    lemma_grown_table(loaded, id, row as int, col as int);
}

proof fn lemma_committed(a: AppView)
    ensures
        calm(a, a.committed()),
{
    match a.mode {
        ModeView::Normal => {},
        ModeView::Editing(target) => {
            let taken = AppView { editing_text: Seq::empty(), ..a };
            match target {
                SelectedView::Node(id) => lemma_dispatch_keeps(
                    taken,
                    RequestView::SetText { id, text: a.editing_text },
                ),
                SelectedView::Edge(id) => lemma_dispatch_keeps(
                    taken,
                    RequestView::SetLabel { id, label: Some(a.editing_text) },
                ),
            }
        },
        ModeView::EditingCell(id, row, col) => {
            let synced = a.synced(row as int, col as int);
            lemma_dispatch_keeps(
                AppView { table: Seq::empty(), ..synced },
                RequestView::SetText { id, text: crate::table::formatted(synced.table) },
            );
        },
    }
}

proof fn lemma_begun_table(a: AppView, id: Seq<char>, row: usize, col: usize)
    ensures
        calm(a, a.begun_table(id, row, col)),
{
    if let Some(node) = a.canvas.node(id) {
        if let crate::model::KindView::Text(text) = node.kind {
            let t = match crate::table::table_of(text) {
                Some(t) => t,
                None => seq![
                    seq![crate::editing::empty_cell()],
                    seq![crate::editing::empty_cell()],
                ],
            };
            let r = crate::geometry::min(row as int, crate::geometry::max(t.len() - 1, 0));
            let c = crate::geometry::min(
                col as int,
                crate::geometry::max(crate::table::col_count(t) - 1, 0),
            );
            lemma_gone_to(AppView { table: t, ..a }, id, r as usize, c as usize);
        }
    }
}

/// Every step in a table leads to a cell of some table.
proof fn lemma_steps(a: AppView, id: Seq<char>, row: usize, col: usize)
    ensures
        forall|b: AppView, r: usize, c: usize|
            calm(a, b) ==> calm(a, #[trigger] b.gone_to(id, r, c)),
{
    assert forall|b: AppView, r: usize, c: usize| calm(a, b) implies calm(
        a,
        #[trigger] b.gone_to(id, r, c),
    ) by {
        lemma_gone_to(b, id, r, c);
    }
}

#[verifier::rlimit(40)]
#[verifier::spinoff_prover]
proof fn lemma_table_keys(a: AppView, id: Seq<char>, row: usize, col: usize)
    ensures
        calm(a, a.tabbed(id, row, col, false)),
        calm(a, a.tabbed(id, row, col, true)),
        calm(a, a.entered(id, row, col)),
        calm(a, a.stepped(id, row, col, 0, 1)),
        calm(a, a.stepped(id, row, col, 0, -1)),
        calm(a, a.stepped(id, row, col, 1, 0)),
        calm(a, a.stepped(id, row, col, -1, 0)),
        calm(a, a.col_inserted(id, row, col)),
        calm(a, a.col_deleted(id, row, col)),
        calm(a, a.row_inserted(id, row, col)),
        calm(a, a.row_deleted(id, row, col)),
{
    lemma_steps(a, id, row, col);
    let s = a.synced(row as int, col as int);
    assert(calm(a, s));
    assert(calm(a, s.with_next_row(row)));
}

proof fn lemma_editing_key(a: AppView, target: SelectedView, k: KeyInput)
    requires
        a.mode == ModeView::Editing(target),
    ensures
        kept(a, a.keyed_editing(target, k)),
{
    lemma_committed(a);
    if let SelectedView::Node(id) = target {
        lemma_grown(a.typed('\n'), id);
        if let Key::Char(c) = k.key {
            lemma_grown(a.typed(c), id);
        }
    }
}

#[verifier::rlimit(40)]
#[verifier::spinoff_prover]
proof fn lemma_cell_key(a: AppView, id: Seq<char>, row: usize, col: usize, k: KeyInput)
    requires
        a.mode == ModeView::EditingCell(id, row, col),
    ensures
        kept(a, a.keyed_cell(id, row, col, k)),
{
    match k.key {
        Key::Esc => lemma_committed(a),
        Key::Enter if k.alt => lemma_grown_table(a.typed('\n'), id, row as int, col as int),
        Key::Backspace => {},
        Key::Char(_) => {},
        _ => lemma_table_keys(a, id, row, col),
    }
}

/// Every key keeps the state well formed and its history within the limit.
pub proof fn lemma_key_keeps(a: AppView, k: KeyInput)
    ensures
        kept(a, a.keyed(k)),
{
    if !k.release {
        match a.mode {
            ModeView::Editing(target) => lemma_editing_key(a, target, k),
            ModeView::EditingCell(id, row, col) => lemma_cell_key(a, id, row, col, k),
            ModeView::Normal => lemma_normal_key(a, k),
        }
    }
}

#[verifier::rlimit(40)]
#[verifier::spinoff_prover]
proof fn lemma_normal_key(a: AppView, k: KeyInput)
    ensures
        kept(a, a.keyed_normal(k)),
{
    lemma_history_steps(a);
    lemma_dispatch_keeps(a, RequestView::Save);
    lemma_dispatch_keeps(a, RequestView::Select { id: None });
    match a.selected {
        Some(SelectedView::Node(id)) => {
            lemma_begun_table(a, id, 0, 0);
            lemma_dispatch_keeps(a, RequestView::Delete { id });
            if let Some(node) = a.canvas.node(id) {
                lemma_dispatch_keeps(
                    a,
                    RequestView::SetColor {
                        id,
                        color: crate::model::opt_color_text(crate::model::next_color(node.color)),
                    },
                );
                lemma_dispatch_keeps(
                    a,
                    RequestView::SetShape {
                        id,
                        shape: crate::keys::full_shape_name(crate::model::other_shape(node.shape)),
                    },
                );
            }
        },
        Some(SelectedView::Edge(id)) => {
            lemma_dispatch_keeps(a, RequestView::DeleteEdge { id });
            if let Some(edge) = a.canvas.edge(id) {
                lemma_dispatch_keeps(
                    a,
                    RequestView::SetEdgeColor {
                        id,
                        color: crate::model::opt_color_text(crate::model::next_color(edge.color)),
                    },
                );
                let (f, t) = crate::keys::next_ends(edge.from_end, edge.to_end);
                lemma_dispatch_keeps(
                    a,
                    RequestView::SetEdgeEnds {
                        id,
                        from_end: crate::app::end_name(f),
                        to_end: crate::app::end_name(t),
                    },
                );
            }
        },
        None => {},
    }
}

proof fn lemma_clicked(a: AppView, target: SelectedView, now: u64)
    ensures
        calm(a, a.clicked(target, now)),
{
    lemma_dispatch_keeps(a, RequestView::Select { id: Some(target) });
}

proof fn lemma_clicked_cell(a: AppView, id: Seq<char>, row: usize, col: usize, now: u64)
    ensures
        calm(a, a.clicked_cell(id, row, col, now)),
{
    let target = SelectedView::Node(id);
    lemma_dispatch_keeps(a, RequestView::Select { id: Some(target) });
    let s = a.dispatched(RequestView::Select { id: Some(target) }).0.click_noted(target, now).0;
    lemma_begun_table(s, id, row, col);
    if let ModeView::EditingCell(open, r, c) = a.mode {
        lemma_gone_to(a.synced(r as int, c as int), id, row, col);
    }
}

proof fn lemma_acted_click(a: AppView, hit: HitView, now: u64)
    ensures
        calm(a, a.acted_click(hit, now)),
{
    let u = a.unpicked();
    match hit {
        HitView::Reattach(id, _) => lemma_clicked(u, SelectedView::Edge(id), now),
        HitView::ColorMenu(_) => {},
        HitView::ColorSwatch(target, color) => match target {
            SelectedView::Node(id) => lemma_dispatch_keeps(a, RequestView::SetColor { id, color }),
            SelectedView::Edge(id) => lemma_dispatch_keeps(
                a,
                RequestView::SetEdgeColor { id, color },
            ),
        },
        HitView::TableCell(id, row, col) => lemma_clicked_cell(u, id, row, col, now),
        HitView::TableMenu(id, _) => {
            if let ModeView::EditingCell(_, row, col) = a.mode {
                lemma_table_keys(a, id, row, col);
            }
        },
        HitView::Move(id) => lemma_clicked(u, SelectedView::Node(id), now),
        HitView::Resize(id, _) => lemma_clicked(u, SelectedView::Node(id), now),
        HitView::Connect(id, _) => lemma_clicked(u, SelectedView::Node(id), now),
        HitView::AnchorDot(id, _) => lemma_clicked(u, SelectedView::Node(id), now),
        HitView::Minimap => {},
    }
}

proof fn lemma_with_anchors(a: AppView, from: Option<CellAnchor>, to: Option<CellAnchor>)
    requires
        a.canvas.edges.len() > 0,
    ensures
        kept(a, a.with_anchors(from, to)),
        a.with_anchors(from, to).canvas.next_id == a.canvas.next_id,
{
    let b = a.with_anchors(from, to);
    assert forall|i: int| 0 <= i < b.canvas.edges.len() implies (#[trigger] b.canvas.edges[i]).id
        == a.canvas.edges[i].id by {}
}

/// What a drag does keeps what `kept` names and gives at most one id.
pub proof fn lemma_acted(a: AppView, did: DidView<HitView>, area: Rect, now: u64)
    requires
        a.canvas.next_id < u64::MAX,
    ensures
        kept(a, a.acted(did, area, now)),
        a.acted(did, area, now).canvas.next_id <= a.canvas.next_id + 1,
{
    match did {
        DidView::Click(hit) => lemma_acted_click(a, hit, now),
        DidView::Drop { key, x, y } => match key {
            HitView::Move(id) => {
                if let Some(node) = a.canvas.node(id) {
                    let (w, h) = (node.rect.width, node.rect.height);
                    assert forall|wx: i32, wy: i32| calm(
                        a,
                        #[trigger] a.dispatched(RequestView::SetRect { id, x: wx, y: wy, w, h }).0,
                    ) by {
                        lemma_dispatch_keeps(a, RequestView::SetRect { id, x: wx, y: wy, w, h });
                    }
                }
            },
            HitView::Resize(id, corner) => {
                let s = AppView { resize: None, ..a };
                if let Some((_, _, origin)) = a.resize {
                    let r = crate::mouse::resized(origin, corner, x, y, area, a.camera);
                    lemma_dispatch_keeps(
                        s,
                        RequestView::SetRect { id, x: r.x, y: r.y, w: r.width, h: r.height },
                    );
                }
            },
            HitView::Connect(from, anchor) => {
                if let Some(to) = a.drop_target(x, y, area) {
                    let req = RequestView::Connect { from, to };
                    lemma_dispatch_keeps(a, req);
                    let (s, reply) = a.dispatched(req);
                    if reply is Ok {
                        assert(s.canvas.edges.len() > 0) by {
                            reveal(AppView::applied);
                        }
                        let far = crate::mouse::anchor_at(a.hit_at(x, y), to);
                        lemma_with_anchors(s, anchor, far);
                    }
                }
            },
            HitView::Reattach(id, end) => {
                if let Some(node) = a.drop_target(x, y, area) {
                    let name = match end {
                        crate::target::Endpoint::From => "from"@,
                        crate::target::Endpoint::To => "to"@,
                    };
                    lemma_dispatch_keeps(a, RequestView::Reattach { id, end: name, node });
                }
            },
            _ => {},
        },
        _ => {},
    }
}

/// Getting ready for an event leaves the drag and what can be hit alone,
/// keeps the state well formed, and gives no id.
pub proof fn lemma_prepared(a: AppView, ev: MouseInput, area: Rect)
    requires
        a.mouse_fits(ev, area),
    ensures
        ({
            let b = a.prepared(ev, area);
            &&& b.drag == a.drag
            &&& b.hits == a.hits
            &&& b.canvas.next_id == a.canvas.next_id
            &&& a.wf() ==> b.wf()
            &&& a.history() <= UNDO_LIMIT ==> b.history() <= UNDO_LIMIT
        }),
{
    lemma_committed(a);
}

proof fn lemma_released(a: AppView, ev: MouseInput, area: Rect, now: u64)
    requires
        a.canvas.next_id < u64::MAX,
    ensures
        a.wf() ==> a.released(ev, area, now).wf(),
        a.history() <= UNDO_LIMIT ==> a.released(ev, area, now).history() <= UNDO_LIMIT,
{
    let s = AppView { press: None, ..a };
    if let Some((id, _, _)) = a.press {
        lemma_clicked(s, SelectedView::Edge(id), now);
    }
    let d = AppView { drawing: None, ..s };
    lemma_dispatch_keeps(d, RequestView::Select { id: None });
    if let Some((start, end)) = a.drawing {
        let r = crate::mouse::drawn_rect(start, end);
        let (wx, wy) = crate::mouse::world_at(r.x as int, r.y as int, area, a.camera);
        lemma_dispatch_keeps(
            d,
            RequestView::Place { x: wx, y: wy, w: Some(r.width), h: Some(r.height) },
        );
    }
}

/// Every mouse event keeps the state well formed and its history within the
/// limit.
pub proof fn lemma_mouse_keeps(a: AppView, ev: MouseInput, area: Rect, now: u64)
    requires
        a.wf(),
        a.mouse_fits(ev, area),
    ensures
        a.moused(ev, area, now).wf(),
        a.history() <= UNDO_LIMIT ==> a.moused(ev, area, now).history() <= UNDO_LIMIT,
{
    let hit = crate::mouse::taken_hit(a.hit_at(ev.column, ev.row), ev);
    lemma_prepared(a, ev, area);
    let s = a.prepared(ev, area);
    let (drag, did) = drag_step(s.drag, ev, hit);
    let t = AppView { drag, ..s };
    lemma_acted(t, did, area, now);
    lemma_released(t.acted(did, area, now), ev, area, now);
}

} // verus!

//! The pointer: what it presses, drags and drops, by ratatui-dnd.

use crossterm::event::MouseButton::Left;
use crossterm::event::{KeyModifiers, MouseButton, MouseEvent, MouseEventKind};
use ratatui::layout::Rect as TermRect;
use ratatui_dnd::Did::{
    Click as Clicked, Drop as Dropped, Lift as Lifted, Move as Moved, Nothing as Idle,
};
use ratatui_dnd::{Act, Drag, Hits, Sortable};
use vstd::prelude::*;

use crate::geometry::{max, min, to_u16, Rect};
use crate::target::{HitTarget, HitView};

verus! {

/// What a mouse event is about.
#[derive(Debug, Clone, Copy, PartialEq, Eq, Structural)]
pub enum MouseKind {
    /// The left button pressed.
    Down,
    /// Moved with the left button held.
    Drag,
    /// The left button released.
    Up,
    /// Moved with no button held.
    Moved,
    /// Anything else.
    Other,
}

/// A mouse event at a cell of the screen.
#[derive(Debug, Clone, Copy, PartialEq, Eq, Structural)]
pub struct MouseInput {
    pub kind: MouseKind,
    pub column: u16,
    pub row: u16,
    pub shift: bool,
}

/// What a drag is doing: nothing, pressed but not moved, or moving with its
/// grab offset and the cell it is at.
pub ghost enum DragView<K> {
    Idle,
    Armed { key: K, rect: Rect, x: u16, y: u16 },
    Moving { key: K, rect: Rect, dx: u16, dy: u16, x: u16, y: u16 },
}

/// What a mouse event amounted to.
pub ghost enum DidView<K> {
    Nothing,
    Click(K),
    Lift(K),
    Move,
    Drop { key: K, x: u16, y: u16 },
}

/// What an event makes of a drag. A press arms what it hit; leaving the
/// pressed cell lifts it; a release clicks what was armed and drops what
/// was moving.
pub open spec fn drag_step<K>(
    state: DragView<K>,
    ev: MouseInput,
    hit: Option<(K, Rect)>,
) -> (DragView<K>, DidView<K>) {
    match ev.kind {
        MouseKind::Down => (
            match hit {
                Some((key, rect)) => DragView::Armed { key, rect, x: ev.column, y: ev.row },
                None => DragView::Idle,
            },
            DidView::Nothing,
        ),
        MouseKind::Drag => match state {
            DragView::Armed { key, rect, x, y } => if ev.column == x && ev.row == y {
                (state, DidView::Nothing)
            } else {
                (
                    DragView::Moving {
                        key,
                        rect,
                        dx: to_u16(x - rect.x),
                        dy: to_u16(y - rect.y),
                        x: ev.column,
                        y: ev.row,
                    },
                    DidView::Lift(key),
                )
            },
            DragView::Moving { key, rect, dx, dy, .. } => (
                DragView::Moving { key, rect, dx, dy, x: ev.column, y: ev.row },
                DidView::Move,
            ),
            DragView::Idle => (state, DidView::Nothing),
        },
        MouseKind::Up => match state {
            DragView::Armed { key, .. } => (DragView::Idle, DidView::Click(key)),
            DragView::Moving { key, .. } => (
                DragView::Idle,
                DidView::Drop { key, x: ev.column, y: ev.row },
            ),
            DragView::Idle => (state, DidView::Nothing),
        },
        _ => (state, DidView::Nothing),
    }
}

/// What is being dragged.
pub open spec fn drag_key<K>(state: DragView<K>) -> Option<K> {
    match state {
        DragView::Moving { key, .. } => Some(key),
        _ => None,
    }
}

/// The cell that a drag is at.
pub open spec fn drag_cell<K>(state: DragView<K>) -> Option<(u16, u16)> {
    match state {
        DragView::Moving { x, y, .. } => Some((x, y)),
        _ => None,
    }
}

/// Where a dragged thing hangs: its own size, cut to the area, by the point
/// it was grabbed at, and kept inside.
pub open spec fn drag_ghost<K>(state: DragView<K>, within: Rect) -> Option<Rect> {
    match state {
        DragView::Moving { rect, dx, dy, x, y, .. } => {
            let w = min(rect.width as int, within.width as int);
            let h = min(rect.height as int, within.height as int);
            Some(
                Rect {
                    x: min(
                        max(to_u16(x - dx) as int, within.x as int),
                        within.x + within.width - w,
                    ) as u16,
                    y: min(
                        max(to_u16(y - dy) as int, within.y as int),
                        within.y + within.height - h,
                    ) as u16,
                    width: w as u16,
                    height: h as u16,
                },
            )
        },
        _ => None,
    }
}

/// `ratatui_dnd::Drag`.
#[verifier::external_type_specification]
#[verifier::external_body]
#[verifier::reject_recursive_types(K)]
pub struct ExDrag<K>(Drag<K>);

/// `ratatui_dnd::Hits`.
#[verifier::external_type_specification]
#[verifier::external_body]
#[verifier::reject_recursive_types(K)]
pub struct ExHits<K>(Hits<K>);

/// `ratatui_dnd::Sortable`.
#[verifier::external_type_specification]
#[verifier::external_body]
#[verifier::reject_recursive_types(C)]
#[verifier::reject_recursive_types(K)]
pub struct ExSortable<C, K>(Sortable<C, K>);

/// What a drag is doing.
pub uninterp spec fn drag_state(d: Drag<HitTarget>) -> DragView<HitView>;

/// What was registered to be hit, in order.
pub uninterp spec fn hit_spots(h: Hits<usize>) -> Seq<(Rect, usize)>;

/// What a mouse event amounted to.
#[derive(Debug)]
pub enum Did {
    Nothing,
    Click(HitTarget),
    Lift(HitTarget),
    Move,
    Drop { key: HitTarget, x: u16, y: u16 },
}

impl View for Did {
    type V = DidView<HitView>;

    open spec fn view(&self) -> DidView<HitView> {
        match self {
            Did::Nothing => DidView::Nothing,
            Did::Click(k) => DidView::Click(k@),
            Did::Lift(k) => DidView::Lift(k@),
            Did::Move => DidView::Move,
            Did::Drop { key, x, y } => DidView::Drop { key: key@, x: *x, y: *y },
        }
    }
}

/// The view of what a press hit.
pub open spec fn hit_view(hit: Option<(HitTarget, Rect)>) -> Option<(HitView, Rect)> {
    match hit {
        Some((k, r)) => Some((k@, r)),
        None => None,
    }
}

/// Calls `Drag::new` of ratatui-dnd: a drag that does nothing yet.
#[verifier::external_body]
pub(crate) fn new_drag() -> (r: Drag<HitTarget>)
    ensures
        drag_state(r) is Idle,
{
    Drag::new()
}

/// Calls `Drag::on_mouse` of ratatui-dnd: the event is taken as `drag_step`
/// says. An event that is none of the left button's changes nothing.
#[verifier::external_body]
pub(crate) fn feed_drag(
    d: &mut Drag<HitTarget>,
    ev: MouseInput,
    hit: Option<(HitTarget, Rect)>,
) -> (r: Did)
    ensures
        (drag_state(*final(d)), r@) == drag_step(drag_state(*old(d)), ev, hit_view(hit)),
{
    let kind = match ev.kind {
        MouseKind::Down => MouseEventKind::Down(Left),
        MouseKind::Drag => MouseEventKind::Drag(Left),
        MouseKind::Up => MouseEventKind::Up(Left),
        _ => MouseEventKind::Moved,
    };
    let ev = MouseEvent { kind, column: ev.column, row: ev.row, modifiers: KeyModifiers::NONE };
    let to = |r: Rect| TermRect { x: r.x, y: r.y, width: r.width, height: r.height };
    match d.on_mouse(ev, hit.map(|(k, r)| (k, to(r)))) {
        Idle => Did::Nothing,
        Clicked(k) => Did::Click(k),
        Lifted(k) => Did::Lift(k),
        Moved => Did::Move,
        Dropped { key, x, y } => Did::Drop { key, x, y },
    }
}

/// Calls `Drag::moving` of ratatui-dnd: what is being dragged.
#[verifier::external_body]
pub(crate) fn moving(d: &Drag<HitTarget>) -> (r: Option<HitTarget>)
    ensures
        match r {
            Some(k) => drag_key(drag_state(*d)) == Some(k@),
            None => drag_key(drag_state(*d)) is None,
        },
{
    d.moving().cloned()
}

/// Calls `Drag::cursor` of ratatui-dnd: the cell that a drag is at.
#[verifier::external_body]
pub(crate) fn cursor(d: &Drag<HitTarget>) -> (r: Option<(u16, u16)>)
    ensures
        r == drag_cell(drag_state(*d)),
{
    d.cursor()
}

/// Calls `Drag::ghost` of ratatui-dnd: where the dragged thing hangs,
/// inside an area that ends on the screen.
#[verifier::external_body]
pub(crate) fn ghost_in(d: &Drag<HitTarget>, within: Rect) -> (r: Option<Rect>)
    requires
        within.fits(),
    ensures
        r == drag_ghost(drag_state(*d), within),
{
    let within = TermRect {
        x: within.x,
        y: within.y,
        width: within.width,
        height: within.height,
    };
    d.ghost(within).map(|r| Rect { x: r.x, y: r.y, width: r.width, height: r.height })
}

/// Calls `Hits::new` of ratatui-dnd: nothing to hit yet.
#[verifier::external_body]
fn new_hits() -> (r: Hits<usize>)
    ensures
        hit_spots(r).len() == 0,
{
    Hits::new()
}

/// Calls `Hits::clear` of ratatui-dnd.
#[verifier::external_body]
fn clear_hits(h: &mut Hits<usize>)
    ensures
        hit_spots(*final(h)).len() == 0,
{
    h.clear();
}

/// Calls `Hits::put` of ratatui-dnd: one more spot, over all before it.
#[verifier::external_body]
fn put_hit(h: &mut Hits<usize>, area: Rect, key: usize)
    ensures
        hit_spots(*final(h)) == hit_spots(*old(h)).push((area, key)),
{
    let area = TermRect {
        x: area.x,
        y: area.y,
        width: area.width,
        height: area.height,
    };
    h.put(area, key);
}

/// Calls `Hits::at` of ratatui-dnd: the last registered spot that has the
/// cell.
#[verifier::external_body]
fn find_hit(h: &Hits<usize>, x: u16, y: u16) -> (r: Option<(usize, Rect)>)
    ensures
        match r {
            Some((key, area)) => last_at(hit_spots(*h), x, y) == Some((area, key)),
            None => last_at(hit_spots(*h), x, y) is None,
        },
{
    h.at(x, y).map(|(k, r)| (k, Rect { x: r.x, y: r.y, width: r.width, height: r.height }))
}

/// The last of some spots that has a cell.
pub open spec fn last_at<K>(spots: Seq<(Rect, K)>, x: u16, y: u16) -> Option<(Rect, K)>
    decreases spots.len(),
{
    if spots.len() == 0 {
        None
    } else if spots.last().0.has(x, y) {
        Some(spots.last())
    } else {
        last_at(spots.drop_last(), x, y)
    }
}

/// What the pointer can hit right now; what was put last lies on top.
pub struct HitMap {
    hits: Hits<usize>,
    targets: Vec<HitTarget>,
}

/// The spots of keys in a list, with what the list holds for each.
pub open spec fn looked_up(spots: Seq<(Rect, usize)>, targets: Seq<HitTarget>) -> Seq<
    (Rect, HitView),
> {
    Seq::new(spots.len(), |i: int| (spots[i].0, targets[spots[i].1 as int]@))
}

impl View for HitMap {
    type V = Seq<(Rect, HitView)>;

    closed spec fn view(&self) -> Seq<(Rect, HitView)> {
        looked_up(hit_spots(self.hits), self.targets@)
    }
}

proof fn lemma_last_at(spots: Seq<(Rect, usize)>, targets: Seq<HitTarget>, x: u16, y: u16)
    ensures
        match last_at(spots, x, y) {
            Some((r, k)) => last_at(looked_up(spots, targets), x, y) == Some(
                (r, targets[k as int]@),
            ) && exists|i: int| 0 <= i < spots.len() && #[trigger] spots[i] == (r, k),
            None => last_at(looked_up(spots, targets), x, y) is None,
        },
    decreases spots.len(),
{
    if spots.len() > 0 {
        lemma_last_at(spots.drop_last(), targets, x, y);
        assert(looked_up(spots, targets).drop_last() =~= looked_up(spots.drop_last(), targets));
        if spots.last().0.has(x, y) {
            assert(spots[spots.len() - 1] == spots.last());
        } else if last_at(spots.drop_last(), x, y) is Some {
            let (r, k) = last_at(spots.drop_last(), x, y)->0;
            let i = choose|i: int|
                0 <= i < spots.drop_last().len() && #[trigger] spots.drop_last()[i] == (r, k);
            assert(spots[i] == (r, k));
        }
    }
}

impl HitMap {
    /// Every spot has its target.
    pub closed spec fn wf(&self) -> bool {
        forall|i: int|
            0 <= i < hit_spots(self.hits).len() ==> (#[trigger] hit_spots(self.hits)[i]).1
                < self.targets@.len()
    }

    pub fn new() -> (r: HitMap)
        ensures
            r.wf(),
            r@ == Seq::<(Rect, HitView)>::empty(),
    {
        let r = HitMap { hits: new_hits(), targets: Vec::new() };
        proof {
            assert(r@ =~= Seq::empty());
        }
        r
    }

    pub fn clear(&mut self)
        ensures
            final(self).wf(),
            final(self)@ == Seq::<(Rect, HitView)>::empty(),
    {
        clear_hits(&mut self.hits);
        self.targets = Vec::new();
        proof {
            assert(self@ =~= Seq::empty());
        }
    }

    /// Registers a spot over all before it.
    pub fn put(&mut self, area: Rect, target: HitTarget)
        requires
            old(self).wf(),
        ensures
            final(self).wf(),
            final(self)@ == old(self)@.push((area, target@)),
    {
        let ghost before = self@;
        let key: usize = self.targets.len();
        let ghost spots = hit_spots(self.hits);
        let ghost shown = target@;
        put_hit(&mut self.hits, area, key);
        self.targets.push(target);
        proof {
            assert forall|i: int| 0 <= i < hit_spots(self.hits).len() implies (
            #[trigger] hit_spots(self.hits)[i]).1 < self.targets@.len() by {
                if i < spots.len() {
                    assert(hit_spots(self.hits)[i] == spots[i]);
                }
            }
            assert forall|i: int| 0 <= i < before.len() implies self@[i] == before[i] by {
                assert(hit_spots(self.hits)[i] == spots[i]);
                assert(spots[i].1 < key);
            }
            assert(self@ =~= before.push((area, shown)));
        }
    }

    /// What lies on top at a cell.
    pub fn at(&self, x: u16, y: u16) -> (r: Option<(HitTarget, Rect)>)
        requires
            self.wf(),
        ensures
            match r {
                Some((t, area)) => last_at(self@, x, y) == Some((area, t@)),
                None => last_at(self@, x, y) is None,
            },
    {
        proof {
            lemma_last_at(hit_spots(self.hits), self.targets@, x, y);
        }
        match find_hit(&self.hits, x, y) {
            Some((key, area)) => Some((self.targets[key].clone(), area)),
            None => None,
        }
    }
}

/// The cells of every connector, to press on.
pub struct EdgeMap {
    hits: Hits<usize>,
    ids: Vec<String>,
}

/// The spots of keys in a list, with the id that the list holds for each.
pub open spec fn named(spots: Seq<(Rect, usize)>, ids: Seq<String>) -> Seq<(Rect, Seq<char>)> {
    Seq::new(spots.len(), |i: int| (spots[i].0, ids[spots[i].1 as int]@))
}

impl View for EdgeMap {
    type V = Seq<(Rect, Seq<char>)>;

    closed spec fn view(&self) -> Seq<(Rect, Seq<char>)> {
        named(hit_spots(self.hits), self.ids@)
    }
}

proof fn lemma_last_named(spots: Seq<(Rect, usize)>, ids: Seq<String>, x: u16, y: u16)
    ensures
        match last_at(spots, x, y) {
            Some((r, k)) => last_at(named(spots, ids), x, y) == Some((r, ids[k as int]@))
                && exists|i: int| 0 <= i < spots.len() && #[trigger] spots[i] == (r, k),
            None => last_at(named(spots, ids), x, y) is None,
        },
    decreases spots.len(),
{
    if spots.len() > 0 {
        lemma_last_named(spots.drop_last(), ids, x, y);
        assert(named(spots, ids).drop_last() =~= named(spots.drop_last(), ids));
        if spots.last().0.has(x, y) {
            assert(spots[spots.len() - 1] == spots.last());
        } else if last_at(spots.drop_last(), x, y) is Some {
            let (r, k) = last_at(spots.drop_last(), x, y)->0;
            let i = choose|i: int|
                0 <= i < spots.drop_last().len() && #[trigger] spots.drop_last()[i] == (r, k);
            assert(spots[i] == (r, k));
        }
    }
}

impl EdgeMap {
    /// Every spot has its id.
    pub closed spec fn wf(&self) -> bool {
        forall|i: int|
            0 <= i < hit_spots(self.hits).len() ==> (#[trigger] hit_spots(self.hits)[i]).1
                < self.ids@.len()
    }

    pub fn new() -> (r: EdgeMap)
        ensures
            r.wf(),
            r@ == Seq::<(Rect, Seq<char>)>::empty(),
    {
        let r = EdgeMap { hits: new_hits(), ids: Vec::new() };
        proof {
            assert(r@ =~= Seq::empty());
        }
        r
    }

    pub fn clear(&mut self)
        ensures
            final(self).wf(),
            final(self)@ == Seq::<(Rect, Seq<char>)>::empty(),
    {
        clear_hits(&mut self.hits);
        self.ids = Vec::new();
        proof {
            assert(self@ =~= Seq::empty());
        }
    }

    /// Registers a spot over all before it.
    pub fn put(&mut self, area: Rect, id: String)
        requires
            old(self).wf(),
        ensures
            final(self).wf(),
            final(self)@ == old(self)@.push((area, id@)),
    {
        let ghost before = self@;
        let key: usize = self.ids.len();
        let ghost spots = hit_spots(self.hits);
        let ghost shown = id@;
        put_hit(&mut self.hits, area, key);
        self.ids.push(id);
        proof {
            assert forall|i: int| 0 <= i < hit_spots(self.hits).len() implies (
            #[trigger] hit_spots(self.hits)[i]).1 < self.ids@.len() by {
                if i < spots.len() {
                    assert(hit_spots(self.hits)[i] == spots[i]);
                }
            }
            assert forall|i: int| 0 <= i < before.len() implies self@[i] == before[i] by {
                assert(hit_spots(self.hits)[i] == spots[i]);
                assert(spots[i].1 < key);
            }
            assert(self@ =~= before.push((area, shown)));
        }
    }

    /// The connector on top at a cell.
    pub fn at(&self, x: u16, y: u16) -> (r: Option<(String, Rect)>)
        requires
            self.wf(),
        ensures
            match r {
                Some((id, area)) => last_at(self@, x, y) == Some((area, id@)),
                None => last_at(self@, x, y) is None,
            },
    {
        proof {
            lemma_last_named(hit_spots(self.hits), self.ids@, x, y);
        }
        match find_hit(&self.hits, x, y) {
            Some((key, area)) => Some((self.ids[key].clone(), area)),
            None => None,
        }
    }
}

/// A sortable list: the drag in it, and where its items were drawn.
pub ghost struct SortView {
    pub drag: DragView<u64>,
    pub area: Option<Rect>,
    pub items: Seq<(Rect, u64)>,
}

/// The state of a sortable with one container.
pub uninterp spec fn sort_state(s: Sortable<(), u64>) -> SortView;

/// Where the row that an item belongs to ends, given that it reaches from
/// before item `j` down to `bottom`: a row is every consecutive item that
/// starts above its bottom. Gives the first item of the next row, and the
/// bottom.
pub open spec fn row_end(items: Seq<(Rect, u64)>, j: int, bottom: u16) -> (int, u16)
    decreases items.len() - j,
{
    if j < items.len() && items[j].0.y < bottom {
        row_end(items, j + 1, max(bottom as int, items[j].0.y_end() as int) as u16)
    } else {
        (j, bottom)
    }
}

/// How many of the items `i..j` have their middle at a column or left of
/// it.
pub open spec fn left_of(items: Seq<(Rect, u64)>, i: int, j: int, x: u16) -> int
    decreases j - i,
{
    if i >= j {
        0
    } else {
        let r = items[j - 1].0;
        left_of(items, i, j - 1, x) + if x >= r.x + r.width as int / 2 {
            1int
        } else {
            0
        }
    }
}

/// Which gap a cell means among the items from `i` on, where a row starts.
/// Above a row it is the one before it. In a row of one item it goes by the
/// item's vertical middle, in a row of several by their horizontal ones.
pub open spec fn gap_from(items: Seq<(Rect, u64)>, x: u16, y: u16, i: int) -> int
    decreases items.len() - i,
{
    if i < 0 || i >= items.len() {
        items.len() as int
    } else {
        let first = items[i].0;
        let (j, bottom) = row_end(items, i + 1, first.y_end());
        if y < first.y {
            i
        } else if y < bottom {
            if j == i + 1 {
                i + if y >= first.y + first.height as int / 2 {
                    1int
                } else {
                    0
                }
            } else {
                i + left_of(items, i, j, x)
            }
        } else if i < j <= items.len() {
            gap_from(items, x, y, j)
        } else {
            items.len() as int
        }
    }
}

/// Which gap between items a cell means.
pub open spec fn slot_of(items: Seq<(Rect, u64)>, x: u16, y: u16) -> usize {
    gap_from(items, x, y, 0) as usize
}

/// What a mouse event on a sortable list amounted to, the drop as a gap.
#[derive(Debug, Clone, Copy, PartialEq, Eq, Structural)]
pub enum SortAct {
    Nothing,
    Click(u64),
    Lift(u64),
    Move,
    Drop { key: u64, slot: usize },
}

/// What an event makes of a sortable list. A drop lands in the gap that the
/// cell means; a list that was never drawn takes none.
pub open spec fn sort_step(s: SortView, ev: MouseInput) -> (SortView, SortAct) {
    let hit = match last_at(s.items, ev.column, ev.row) {
        Some((r, k)) => Some((k, r)),
        None => None,
    };
    let (drag, did) = drag_step(s.drag, ev, hit);
    (
        SortView { drag, ..s },
        match did {
            DidView::Nothing => SortAct::Nothing,
            DidView::Click(k) => SortAct::Click(k),
            DidView::Lift(k) => SortAct::Lift(k),
            DidView::Move => SortAct::Move,
            DidView::Drop { key, x, y } => match s.area {
                Some(_) => SortAct::Drop { key, slot: slot_of(s.items, x, y) },
                None => SortAct::Nothing,
            },
        },
    )
}

/// Whether every rectangle of a list ends on the screen.
pub open spec fn items_fit(items: Seq<(Rect, u64)>) -> bool {
    forall|i: int| 0 <= i < items.len() ==> (#[trigger] items[i]).0.fits()
}

/// The view of a list of items.
pub open spec fn item_views(items: Seq<(u64, Rect)>) -> Seq<(Rect, u64)> {
    Seq::new(items.len(), |i: int| (items[i].1, items[i].0))
}

/// Calls `Sortable::new` of ratatui-dnd.
#[verifier::external_body]
pub(crate) fn new_sort() -> (r: Sortable<(), u64>)
    ensures
        sort_state(r) == (SortView { drag: DragView::Idle, area: None, items: Seq::empty() }),
{
    Sortable::new()
}

/// Calls `Sortable::container` of ratatui-dnd: where the list and its items
/// are drawn now. The drag goes on as it was.
#[verifier::external_body]
pub(crate) fn put_list(s: &mut Sortable<(), u64>, area: Rect, items: &Vec<(u64, Rect)>)
    requires
        area.fits(),
        items_fit(item_views(items@)),
    ensures
        sort_state(*final(s)) == (SortView {
            drag: sort_state(*old(s)).drag,
            area: Some(area),
            items: item_views(items@),
        }),
{
    let to = |r: &Rect| TermRect { x: r.x, y: r.y, width: r.width, height: r.height };
    let items: Vec<_> = items.iter().map(|(k, r)| (*k, to(r))).collect();
    s.container((), to(&area), &items);
}

/// Calls `Sortable::on_mouse` of ratatui-dnd: the event is taken as
/// `sort_step` says.
#[verifier::external_body]
pub(crate) fn feed_sort(s: &mut Sortable<(), u64>, ev: MouseInput) -> (r: SortAct)
    requires
        items_fit(sort_state(*old(s)).items),
        sort_state(*old(s)).area is Some ==> sort_state(*old(s)).area->0.fits(),
    ensures
        (sort_state(*final(s)), r) == sort_step(sort_state(*old(s)), ev),
{
    let kind = match ev.kind {
        MouseKind::Down => MouseEventKind::Down(MouseButton::Left),
        MouseKind::Drag => MouseEventKind::Drag(MouseButton::Left),
        MouseKind::Up => MouseEventKind::Up(MouseButton::Left),
        _ => MouseEventKind::Moved,
    };
    let ev = MouseEvent { kind, column: ev.column, row: ev.row, modifiers: KeyModifiers::NONE };
    match s.on_mouse(ev) {
        Act::Nothing => SortAct::Nothing,
        Act::Click(k) => SortAct::Click(k),
        Act::Lift(k) => SortAct::Lift(k),
        Act::Move => SortAct::Move,
        Act::Drop { key, slot, .. } => SortAct::Drop { key, slot },
    }
}

/// Calls `Sortable::held` of ratatui-dnd: the item that is being dragged.
#[verifier::external_body]
pub(crate) fn held(s: &Sortable<(), u64>) -> (r: Option<u64>)
    ensures
        r == drag_key(sort_state(*s).drag),
{
    s.held().copied()
}

/// Calls `Sortable::over` of ratatui-dnd: the gap that the dragged item is
/// over.
#[verifier::external_body]
pub(crate) fn over(s: &Sortable<(), u64>) -> (r: Option<usize>)
    requires
        items_fit(sort_state(*s).items),
        sort_state(*s).area is Some ==> sort_state(*s).area->0.fits(),
    ensures
        r == match (drag_cell(sort_state(*s).drag), sort_state(*s).area) {
            (Some((x, y)), Some(_)) => Some(slot_of(sort_state(*s).items, x, y)),
            _ => None,
        },
{
    s.over().map(|(_, slot)| slot)
}

/// Calls `Sortable::ghost` of ratatui-dnd: where the dragged item hangs,
/// inside an area that ends on the screen.
#[verifier::external_body]
pub(crate) fn sort_ghost(s: &Sortable<(), u64>, within: Rect) -> (r: Option<Rect>)
    requires
        within.fits(),
    ensures
        r == drag_ghost(sort_state(*s).drag, within),
{
    let within = TermRect {
        x: within.x,
        y: within.y,
        width: within.width,
        height: within.height,
    };
    s.ghost(within).map(|r| Rect { x: r.x, y: r.y, width: r.width, height: r.height })
}

/// The gap that the dragged item of a list is over.
pub open spec fn sort_over(s: SortView) -> Option<usize> {
    match (drag_cell(s.drag), s.area) {
        (Some((x, y)), Some(_)) => Some(slot_of(s.items, x, y)),
        _ => None,
    }
}

} // verus!

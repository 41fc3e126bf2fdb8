//! What the keyboard does to a board.

use vstd::prelude::*;

use crate::app::{
    edge_end_to_string, end_name, App, AppView, Mode, ModeView, Request, RequestView,
};
use crate::editing::{all_reach, content_rows, line_rows, text_height};
use crate::input_laws::lemma_key_keeps;
use crate::model::{
    next_color, opt_color_text, other_shape, shape_name, write_color, Color, EdgeEnd, Shape,
    ShapeId,
};
use crate::target::{clone_selected, Selected, SelectedView};
use crate::text::{split, split_chars, to_chars};

verus! {

/// A key of the keyboard.
#[derive(Debug, Clone, Copy, PartialEq, Eq, Structural)]
pub enum Key {
    Esc,
    Enter,
    Backspace,
    Delete,
    Tab,
    BackTab,
    Left,
    Right,
    Up,
    Down,
    Char(char),
    Other,
}

/// A key pressed or released, with the modifiers held.
#[derive(Debug, Clone, Copy, PartialEq, Eq, Structural)]
pub struct KeyInput {
    pub key: Key,
    pub ctrl: bool,
    pub alt: bool,
    pub release: bool,
}

/// A text without its last character.
pub open spec fn popped(s: Seq<char>) -> Seq<char> {
    if s.len() == 0 {
        s
    } else {
        s.drop_last()
    }
}

/// The ends of a connector after these in the cycle forward, both, neither,
/// backward.
pub open spec fn next_ends(from: EdgeEnd, to: EdgeEnd) -> (EdgeEnd, EdgeEnd) {
    match (from, to) {
        (EdgeEnd::Plain, EdgeEnd::Arrow) => (EdgeEnd::Arrow, EdgeEnd::Arrow),
        (EdgeEnd::Arrow, EdgeEnd::Arrow) => (EdgeEnd::Plain, EdgeEnd::Plain),
        (EdgeEnd::Plain, EdgeEnd::Plain) => (EdgeEnd::Arrow, EdgeEnd::Plain),
        (EdgeEnd::Arrow, EdgeEnd::Plain) => (EdgeEnd::Plain, EdgeEnd::Arrow),
    }
}

/// A shape's name, the default's included.
pub open spec fn full_shape_name(s: Shape) -> Seq<char> {
    match shape_name(s) {
        Some(name) => name,
        None => "rectangle"@,
    }
}

impl AppView {
    /// The state with a character typed.
    pub open spec fn typed(self, c: char) -> AppView {
        AppView { editing_text: self.editing_text.push(c), ..self }
    }

    /// The state with the last character taken back.
    pub open spec fn untyped(self) -> AppView {
        AppView { editing_text: popped(self.editing_text), ..self }
    }

    /// A key while a box or a connector's label is being typed. Enter is a
    /// newline in a box and ends a label, which is one line.
    pub open spec fn keyed_editing(self, target: SelectedView, k: KeyInput) -> AppView {
        match k.key {
            Key::Esc => self.committed(),
            Key::Enter => match target {
                SelectedView::Node(id) => self.typed('\n').grown(id),
                SelectedView::Edge(_) => self.committed(),
            },
            Key::Backspace => self.untyped(),
            Key::Char(c) => if k.ctrl {
                self
            } else {
                match target {
                    SelectedView::Node(id) => self.typed(c).grown(id),
                    SelectedView::Edge(_) => self.typed(c),
                }
            },
            _ => self,
        }
    }

    /// A key while a cell of a table is being typed.
    pub open spec fn keyed_cell(
        self,
        id: Seq<char>,
        row: usize,
        col: usize,
        k: KeyInput,
    ) -> AppView {
        match k.key {
            Key::Esc => self.committed(),
            Key::Tab => self.tabbed(id, row, col, false),
            Key::BackTab => self.tabbed(id, row, col, true),
            Key::Enter => if k.alt {
                self.typed('\n').grown_table(id, row as int, col as int)
            } else {
                self.entered(id, row, col)
            },
            Key::Right => if k.ctrl {
                self.col_inserted(id, row, col)
            } else {
                self.stepped(id, row, col, 0, 1)
            },
            Key::Left => if k.ctrl {
                self.col_deleted(id, row, col)
            } else {
                self.stepped(id, row, col, 0, -1)
            },
            Key::Down => if k.ctrl {
                self.row_inserted(id, row, col)
            } else {
                self.stepped(id, row, col, 1, 0)
            },
            Key::Up => if k.ctrl {
                self.row_deleted(id, row, col)
            } else {
                self.stepped(id, row, col, -1, 0)
            },
            Key::Backspace => self.untyped(),
            Key::Char(c) => if k.ctrl {
                self
            } else {
                self.typed(c)
            },
            _ => self,
        }
    }

    /// The selected box or connector in the next color.
    pub open spec fn recolored(self) -> AppView {
        match self.selected {
            Some(SelectedView::Node(id)) => match self.canvas.node(id) {
                Some(node) => self.dispatched(
                    RequestView::SetColor { id, color: opt_color_text(next_color(node.color)) },
                ).0,
                None => self,
            },
            Some(SelectedView::Edge(id)) => match self.canvas.edge(id) {
                Some(edge) => self.dispatched(
                    RequestView::SetEdgeColor {
                        id,
                        color: opt_color_text(next_color(edge.color)),
                    },
                ).0,
                None => self,
            },
            None => self,
        }
    }

    /// The selected box in the other shape, or the selected connector with
    /// the next ends.
    pub open spec fn reshaped(self) -> AppView {
        match self.selected {
            Some(SelectedView::Node(id)) => match self.canvas.node(id) {
                Some(node) => self.dispatched(
                    RequestView::SetShape { id, shape: full_shape_name(other_shape(node.shape)) },
                ).0,
                None => self,
            },
            Some(SelectedView::Edge(id)) => match self.canvas.edge(id) {
                Some(edge) => {
                    let (f, t) = next_ends(edge.from_end, edge.to_end);
                    self.dispatched(
                        RequestView::SetEdgeEnds { id, from_end: end_name(f), to_end: end_name(t) },
                    ).0
                },
                None => self,
            },
            None => self,
        }
    }

    /// The state without what is selected.
    pub open spec fn deleted(self) -> AppView {
        match self.selected {
            Some(SelectedView::Node(id)) => self.dispatched(RequestView::Delete { id }).0,
            Some(SelectedView::Edge(id)) => self.dispatched(RequestView::DeleteEdge { id }).0,
            None => self,
        }
    }

    /// Escape: closes the color picker, else clears the selection, else
    /// quits.
    pub open spec fn escaped(self) -> AppView {
        if self.color_picker is Some {
            AppView { color_picker: None, hover_swatch: None, ..self }
        } else if self.selected is Some {
            self.dispatched(RequestView::Select { id: None }).0
        } else {
            AppView { should_quit: true, ..self }
        }
    }

    /// A key while nothing is being typed.
    pub open spec fn keyed_normal(self, k: KeyInput) -> AppView {
        match k.key {
            Key::Char(c) => if c == 'z' && k.ctrl {
                self.undone().0
            } else if c == 'y' && k.ctrl {
                self.redone().0
            } else if c == 'q' {
                AppView { should_quit: true, ..self }
            } else if c == 's' {
                self.dispatched(RequestView::Save).0
            } else if c == 'c' {
                self.recolored()
            } else if c == 'x' {
                self.reshaped()
            } else if c == 't' {
                match self.selected {
                    Some(SelectedView::Node(id)) => self.begun_table(id, 0, 0),
                    _ => self,
                }
            } else if c == 'd' {
                self.deleted()
            } else {
                self
            },
            Key::Enter => match self.selected {
                Some(target) => self.begun(target),
                None => self,
            },
            Key::Delete => self.deleted(),
            Key::Esc => self.escaped(),
            _ => self,
        }
    }

    /// The state after a key. A release does nothing.
    pub open spec fn keyed(self, k: KeyInput) -> AppView {
        if k.release {
            self
        } else {
            match self.mode {
                ModeView::Editing(target) => self.keyed_editing(target, k),
                ModeView::EditingCell(id, row, col) => self.keyed_cell(id, row, col, k),
                ModeView::Normal => self.keyed_normal(k),
            }
        }
    }

    /// Whether a key can be taken: a text typed into a box takes rows that
    /// can be counted, and a cell that is left or a row or column that is
    /// added or removed lies in the grid.
    pub open spec fn key_fits(self, k: KeyInput) -> bool {
        k.release || match self.mode {
            ModeView::Normal => true,
            ModeView::Editing(SelectedView::Edge(_)) => true,
            ModeView::Editing(SelectedView::Node(id)) => match k.key {
                Key::Enter => self.text_fits(id, self.editing_text.push('\n')),
                Key::Char(c) => k.ctrl || self.text_fits(id, self.editing_text.push(c)),
                _ => true,
            },
            ModeView::EditingCell(_, row, col) => match k.key {
                Key::Tab => row < usize::MAX && col < usize::MAX,
                Key::BackTab => row < usize::MAX && col < usize::MAX,
                Key::Enter => k.alt || row < usize::MAX,
                Key::Right => if k.ctrl {
                    self.in_grid(row, col)
                } else {
                    self.has_grid()
                },
                Key::Left => if k.ctrl {
                    self.in_grid(row, col)
                } else {
                    self.has_grid()
                },
                Key::Down => if k.ctrl {
                    row < self.table.len()
                } else {
                    self.has_grid()
                },
                Key::Up => if k.ctrl {
                    row < self.table.len()
                } else {
                    self.has_grid()
                },
                _ => true,
            },
        }
    }
}

/// Whether a text with one more character shown in a column takes rows that
/// can be counted.
fn rows_fit(text: &str, c: char, width: u16) -> (r: bool)
    requires
        width >= 1,
    ensures
        r == (text_height(text@.push(c), width) <= u16::MAX),
{
    let mut v: Vec<char> = to_chars(text);
    v.push(c);
    let n: usize = v.len();
    let ls: Vec<Vec<char>> = split_chars(&v, 0, n, '\n');
    let ghost all = split(text@.push(c), '\n');
    proof {
        assert(v@.subrange(0, n as int) =~= text@.push(c));
    }
    let mut rows: u128 = 0;
    let mut i: usize = 0;
    while i < ls.len()
        invariant
            i <= ls@.len(),
            all.len() == ls@.len(),
            forall|k: int| 0 <= k < all.len() ==> #[trigger] all[k] == ls@[k]@,
            width >= 1,
            rows == content_rows(all.take(i as int), width as int),
            rows <= i * 65536,
        decreases ls@.len() - i,
    {
        let len: usize = ls[i].len();
        let wide: usize = width as usize;
        proof {
            assert(all.take(i + 1).drop_last() =~= all.take(i as int));
            assert(all[i as int].len() == len);
        }
        let more: u128 = if len == 0 {
            1
        } else {
            let up: usize = (len - 1) / wide;
            proof {
                assert((len + wide - 1) / (wide as int) == (len - 1) / (wide as int) + 1) by {
                    vstd::arithmetic::div_mod::lemma_hoist_over_denominator(
                        len - 1,
                        1,
                        wide as nat,
                    );
                };
            }
            (up as u128 + 1) % 65536
        };
        proof {
            assert(more == line_rows(len as int, wide as int));
        }
        rows = rows + more;
        i += 1;
    }
    proof {
        assert(all.take(all.len() as int) =~= all);
    }
    let shown: u128 = if rows < 1 {
        1
    } else {
        rows
    };
    shown + 2 <= u16::MAX as u128
}

impl App {
    /// Whether a text with one more character takes rows in a box that can
    /// be counted.
    fn room_for(&self, id: &ShapeId, c: char) -> (r: bool)
        ensures
            r == self@.text_fits(id@, self@.editing_text.push(c)),
    {
        match self.canvas.node(id.as_str()) {
            None => true,
            Some(node) => {
                let inner: u16 = if node.rect.width < 3 {
                    1
                } else {
                    node.rect.width - 2
                };
                rows_fit(self.editing_text.as_str(), c, inner)
            },
        }
    }

    /// Whether the open cell lies in the grid, in every row of it.
    pub fn cell_in_grid(&self, row: usize, col: usize) -> (r: bool)
        ensures
            r == self@.in_grid(row, col),
    {
        if row >= self.editing_table.len() {
            return false;
        }
        let mut i: usize = 0;
        while i < self.editing_table.len()
            invariant
                i <= self.editing_table@.len(),
                forall|k: int| 0 <= k < i ==> col < (#[trigger] self@.table[k]).len(),
            decreases self.editing_table@.len() - i,
        {
            if col >= self.editing_table[i].len() {
                proof {
                    assert(self@.table[i as int].len() == self.editing_table@[i as int]@.len());
                    assert(!all_reach(self@.table, col as int));
                }
                return false;
            }
            proof {
                assert(self@.table[i as int].len() == self.editing_table@[i as int]@.len());
            }
            i += 1;
        }
        true
    }

    /// Whether a key can be taken as things stand.
    pub fn can_take_key(&self, k: &KeyInput) -> (r: bool)
        ensures
            r == self@.key_fits(*k),
    {
        if k.release {
            return true;
        }
        match &self.mode {
            Mode::Normal => true,
            Mode::Editing(Selected::Edge(_)) => true,
            Mode::Editing(Selected::Node(id)) => match k.key {
                Key::Enter => self.room_for(id, '\n'),
                Key::Char(c) => k.ctrl || self.room_for(id, c),
                _ => true,
            },
            Mode::EditingCell(_, row, col) => {
                let grid: bool = self.editing_table.len() > 0 && self.editing_table[0].len() > 0;
                let in_rows: bool = *row < self.editing_table.len();
                match k.key {
                    Key::Tab => *row < usize::MAX && *col < usize::MAX,
                    Key::BackTab => *row < usize::MAX && *col < usize::MAX,
                    Key::Enter => k.alt || *row < usize::MAX,
                    Key::Right => if k.ctrl {
                        self.cell_in_grid(*row, *col)
                    } else {
                        grid
                    },
                    Key::Left => if k.ctrl {
                        self.cell_in_grid(*row, *col)
                    } else {
                        grid
                    },
                    Key::Down => if k.ctrl {
                        in_rows
                    } else {
                        grid
                    },
                    Key::Up => if k.ctrl {
                        in_rows
                    } else {
                        grid
                    },
                    _ => true,
                }
            },
        }
    }

    fn type_char(&mut self, c: char)
        ensures
            final(self)@ == old(self)@.typed(c),
            final(self).maps_wf() == old(self).maps_wf(),
    {
        self.editing_text.push(c);
    }

    fn untype(&mut self)
        ensures
            final(self)@ == old(self)@.untyped(),
            final(self).maps_wf() == old(self).maps_wf(),
    {
        let _last: Option<char> = self.editing_text.pop();
    }

    fn key_editing(&mut self, target: Selected, k: KeyInput)
        requires
            target@ is Node ==> match k.key {
                Key::Enter => old(self)@.text_fits(
                    target@->Node_0,
                    old(self)@.editing_text.push('\n'),
                ),
                Key::Char(c) => k.ctrl || old(self)@.text_fits(
                    target@->Node_0,
                    old(self)@.editing_text.push(c),
                ),
                _ => true,
            },
        ensures
            final(self)@ == old(self)@.keyed_editing(target@, k),
            final(self).maps_wf() == old(self).maps_wf(),
    {
        match k.key {
            Key::Esc => self.commit_edit(),
            Key::Enter => match &target {
                Selected::Node(id) => {
                    self.type_char('\n');
                    self.grow_to_fit(id);
                },
                Selected::Edge(_) => self.commit_edit(),
            },
            Key::Backspace => self.untype(),
            Key::Char(c) => {
                if !k.ctrl {
                    self.type_char(c);
                    match &target {
                        Selected::Node(id) => self.grow_to_fit(id),
                        Selected::Edge(_) => {},
                    }
                }
            },
            _ => {},
        }
    }

    fn key_cell(&mut self, id: ShapeId, row: usize, col: usize, k: KeyInput)
        requires
            old(self)@.mode == ModeView::EditingCell(id@, row, col),
            !k.release,
            old(self)@.key_fits(k),
        ensures
            final(self)@ == old(self)@.keyed_cell(id@, row, col, k),
            final(self).maps_wf() == old(self).maps_wf(),
    {
        match k.key {
            Key::Esc => self.commit_edit(),
            Key::Tab => self.table_tab(id, row, col, false),
            Key::BackTab => self.table_tab(id, row, col, true),
            Key::Enter => {
                if k.alt {
                    self.type_char('\n');
                    self.table_grow_to_fit(&id, row, col);
                } else {
                    self.table_enter(id, row, col);
                }
            },
            Key::Right => {
                if k.ctrl {
                    self.table_insert_col(id, row, col);
                } else {
                    self.table_move(id, row, col, 0, 1);
                }
            },
            Key::Left => {
                if k.ctrl {
                    self.table_delete_col(id, row, col);
                } else {
                    self.table_move(id, row, col, 0, -1);
                }
            },
            Key::Down => {
                if k.ctrl {
                    self.table_insert_row(id, row, col);
                } else {
                    self.table_move(id, row, col, 1, 0);
                }
            },
            Key::Up => {
                if k.ctrl {
                    self.table_delete_row(id, row, col);
                } else {
                    self.table_move(id, row, col, -1, 0);
                }
            },
            Key::Backspace => self.untype(),
            Key::Char(c) => {
                if !k.ctrl {
                    self.type_char(c);
                }
            },
            _ => {},
        }
    }

    fn recolor(&mut self)
        ensures
            final(self)@ == old(self)@.recolored(),
            final(self).maps_wf() == old(self).maps_wf(),
    {
        match clone_selected(&self.selected) {
            Some(Selected::Node(id)) => {
                let next: Option<Option<Color>> = match self.canvas.node(id.as_str()) {
                    Some(node) => Some(Color::cycle(node.color.as_ref())),
                    None => None,
                };
                if let Some(color) = next {
                    let _done = self.dispatch(
                        Request::SetColor { id, color: write_color(&color) },
                    );
                }
            },
            Some(Selected::Edge(id)) => {
                let next: Option<Option<Color>> = match self.canvas.edge(id.as_str()) {
                    Some(edge) => Some(Color::cycle(edge.color.as_ref())),
                    None => None,
                };
                if let Some(color) = next {
                    let _done = self.dispatch(
                        Request::SetEdgeColor { id, color: write_color(&color) },
                    );
                }
            },
            None => {},
        }
    }

    fn reshape(&mut self)
        ensures
            final(self)@ == old(self)@.reshaped(),
            final(self).maps_wf() == old(self).maps_wf(),
    {
        match clone_selected(&self.selected) {
            Some(Selected::Node(id)) => {
                let next: Option<Shape> = match self.canvas.node(id.as_str()) {
                    Some(node) => Some(node.shape.cycle()),
                    None => None,
                };
                if let Some(shape) = next {
                    let name: String = match shape.as_str() {
                        Some(s) => s.to_owned(),
                        None => "rectangle".to_owned(),
                    };
                    let _done = self.dispatch(Request::SetShape { id, shape: name });
                }
            },
            Some(Selected::Edge(id)) => {
                let ends: Option<(EdgeEnd, EdgeEnd)> = match self.canvas.edge(id.as_str()) {
                    Some(edge) => Some(
                        match (edge.from_end, edge.to_end) {
                            (EdgeEnd::Plain, EdgeEnd::Arrow) => (EdgeEnd::Arrow, EdgeEnd::Arrow),
                            (EdgeEnd::Arrow, EdgeEnd::Arrow) => (EdgeEnd::Plain, EdgeEnd::Plain),
                            (EdgeEnd::Plain, EdgeEnd::Plain) => (EdgeEnd::Arrow, EdgeEnd::Plain),
                            (EdgeEnd::Arrow, EdgeEnd::Plain) => (EdgeEnd::Plain, EdgeEnd::Arrow),
                        },
                    ),
                    None => None,
                };
                if let Some((f, t)) = ends {
                    let _done = self.dispatch(
                        Request::SetEdgeEnds {
                            id,
                            from_end: edge_end_to_string(f).to_owned(),
                            to_end: edge_end_to_string(t).to_owned(),
                        },
                    );
                }
            },
            None => {},
        }
    }

    fn delete_selected(&mut self)
        ensures
            final(self)@ == old(self)@.deleted(),
            final(self).maps_wf() == old(self).maps_wf(),
    {
        match clone_selected(&self.selected) {
            Some(Selected::Node(id)) => {
                let _done = self.dispatch(Request::Delete { id });
            },
            Some(Selected::Edge(id)) => {
                let _done = self.dispatch(Request::DeleteEdge { id });
            },
            None => {},
        }
    }

    fn escape(&mut self)
        ensures
            final(self)@ == old(self)@.escaped(),
            final(self).maps_wf() == old(self).maps_wf(),
    {
        if self.color_picker.is_some() {
            self.color_picker = None;
            self.hover_swatch = None;
        } else if self.selected.is_some() {
            let _done = self.dispatch(Request::Select { id: None });
        } else {
            self.should_quit = true;
        }
    }

    fn key_normal(&mut self, k: KeyInput)
        ensures
            final(self)@ == old(self)@.keyed_normal(k),
            final(self).maps_wf() == old(self).maps_wf(),
    {
        match k.key {
            Key::Char(c) => {
                if c == 'z' && k.ctrl {
                    let _done: bool = self.undo();
                } else if c == 'y' && k.ctrl {
                    let _done: bool = self.redo();
                } else if c == 'q' {
                    self.should_quit = true;
                } else if c == 's' {
                    let _done = self.dispatch(Request::Save);
                } else if c == 'c' {
                    self.recolor();
                } else if c == 'x' {
                    self.reshape();
                } else if c == 't' {
                    match clone_selected(&self.selected) {
                        Some(Selected::Node(id)) => self.begin_table_edit(id),
                        _ => {},
                    }
                } else if c == 'd' {
                    self.delete_selected();
                }
            },
            Key::Enter => {
                match clone_selected(&self.selected) {
                    Some(target) => self.begin_edit(target),
                    None => {},
                }
            },
            Key::Delete => self.delete_selected(),
            Key::Esc => self.escape(),
            _ => {},
        }
    }

    /// Takes a key.
    pub fn on_key(&mut self, k: KeyInput)
        requires
            old(self)@.key_fits(k),
        ensures
            final(self)@ == old(self)@.keyed(k),
            final(self).maps_wf() == old(self).maps_wf(),
            old(self).wf() ==> final(self).wf(),
    {
        proof {
            lemma_key_keeps(self@, k);
        }
        if k.release {
            return;
        }
        let mode: Mode = self.mode.clone();
        match mode {
            Mode::Editing(target) => self.key_editing(target, k),
            Mode::EditingCell(id, row, col) => self.key_cell(id, row, col, k),
            Mode::Normal => self.key_normal(k),
        }
    }
}

} // verus!

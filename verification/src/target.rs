//! What the pointer can hit on a board, and what can be selected.

use vstd::prelude::*;

use crate::model::{CellAnchor, ShapeId};
use crate::text::{clone_opt, opt_view, same_str};

verus! {

#[derive(Debug, Clone, Copy, PartialEq, Eq, Structural)]
pub enum Corner {
    TopLeft,
    TopRight,
    BottomLeft,
    BottomRight,
}

/// Which end of a connector a `Reattach` handle is: a grab there redraws
/// that end while the other stays put.
#[derive(Debug, Clone, Copy, PartialEq, Eq, Structural)]
pub enum Endpoint {
    From,
    To,
}

/// What one of a table's row and column buttons does, relative to the cell
/// that is open.
#[derive(Debug, Clone, Copy, PartialEq, Eq, Structural)]
pub enum TableOp {
    AddCol,
    DelCol,
    AddRow,
    DelRow,
}

/// What is under the selection: a box or a connector, never both.
#[derive(Debug)]
pub enum Selected {
    Node(ShapeId),
    Edge(String),
}

/// A selection, its id as characters.
pub ghost enum SelectedView {
    Node(Seq<char>),
    Edge(Seq<char>),
}

impl View for Selected {
    type V = SelectedView;

    open spec fn view(&self) -> SelectedView {
        match self {
            Selected::Node(id) => SelectedView::Node(id@),
            Selected::Edge(id) => SelectedView::Edge(id@),
        }
    }
}

/// The view of an optional selection.
pub open spec fn selected_view(s: Option<Selected>) -> Option<SelectedView> {
    match s {
        Some(s) => Some(s@),
        None => None,
    }
}

impl Clone for Selected {
    fn clone(&self) -> (r: Selected)
        ensures
            r == *self,
    {
        match self {
            Selected::Node(id) => Selected::Node(id.clone()),
            Selected::Edge(id) => Selected::Edge(id.clone()),
        }
    }
}

impl Selected {
    /// Whether two selections are the same box or connector.
    pub fn same(&self, other: &Selected) -> (r: bool)
        ensures
            r == (self@ == other@),
    {
        match self {
            Selected::Node(a) => match other {
                Selected::Node(b) => same_str(a.as_str(), b.as_str()),
                Selected::Edge(_) => false,
            },
            Selected::Edge(a) => match other {
                Selected::Edge(b) => same_str(a.as_str(), b.as_str()),
                Selected::Node(_) => false,
            },
        }
    }
}

/// A copy of an optional selection.
pub fn clone_selected(s: &Option<Selected>) -> (r: Option<Selected>)
    ensures
        r == *s,
{
    match s {
        Some(s) => Some(s.clone()),
        None => None,
    }
}

/// Whether an optional selection is the given one.
pub fn is_selected(s: &Option<Selected>, target: &Selected) -> (r: bool)
    ensures
        r == (selected_view(*s) == Some(target@)),
{
    match s {
        Some(s) => s.same(target),
        None => false,
    }
}

#[derive(Debug)]
pub enum HitTarget {
    Move(ShapeId),
    Resize(ShapeId, Corner),
    /// The start of a connector, at a table cell's row or column where one
    /// is given.
    Connect(ShapeId, Option<CellAnchor>),
    /// A small handle at a connector's own exit or entry point: dragging it
    /// points that end at a different box.
    Reattach(String, Endpoint),
    /// The small button next to a selected box or connector that opens its
    /// color picker.
    ColorMenu(Selected),
    /// One swatch in an open color picker. `None` clears the color; a
    /// preset is `Some("1")`..`Some("6")`; anything else is a literal hex
    /// string.
    ColorSwatch(Selected, Option<String>),
    /// A row or column button on an open table editor.
    TableMenu(ShapeId, TableOp),
    /// One rendered cell of a table box: row, column.
    TableCell(ShapeId, usize, usize),
    /// The grab point of a table's row or column, beside its border.
    AnchorDot(ShapeId, CellAnchor),
    /// The small map over the canvas: a press on it is never one on what it
    /// covers.
    Minimap,
}

/// A hit, its ids as characters.
pub ghost enum HitView {
    Move(Seq<char>),
    Resize(Seq<char>, Corner),
    Connect(Seq<char>, Option<CellAnchor>),
    Reattach(Seq<char>, Endpoint),
    ColorMenu(SelectedView),
    ColorSwatch(SelectedView, Option<Seq<char>>),
    TableMenu(Seq<char>, TableOp),
    TableCell(Seq<char>, usize, usize),
    AnchorDot(Seq<char>, CellAnchor),
    Minimap,
}

impl View for HitTarget {
    type V = HitView;

    open spec fn view(&self) -> HitView {
        match self {
            HitTarget::Move(id) => HitView::Move(id@),
            HitTarget::Resize(id, c) => HitView::Resize(id@, *c),
            HitTarget::Connect(id, a) => HitView::Connect(id@, *a),
            HitTarget::Reattach(id, e) => HitView::Reattach(id@, *e),
            HitTarget::ColorMenu(t) => HitView::ColorMenu(t@),
            HitTarget::ColorSwatch(t, c) => HitView::ColorSwatch(t@, opt_view(*c)),
            HitTarget::TableMenu(id, op) => HitView::TableMenu(id@, *op),
            HitTarget::TableCell(id, r, c) => HitView::TableCell(id@, *r, *c),
            HitTarget::AnchorDot(id, a) => HitView::AnchorDot(id@, *a),
            HitTarget::Minimap => HitView::Minimap,
        }
    }
}

impl Clone for HitTarget {
    fn clone(&self) -> (r: HitTarget)
        ensures
            r == *self,
    {
        match self {
            HitTarget::Move(id) => HitTarget::Move(id.clone()),
            HitTarget::Resize(id, c) => HitTarget::Resize(id.clone(), *c),
            HitTarget::Connect(id, a) => HitTarget::Connect(id.clone(), *a),
            HitTarget::Reattach(id, e) => HitTarget::Reattach(id.clone(), *e),
            HitTarget::ColorMenu(t) => HitTarget::ColorMenu(t.clone()),
            HitTarget::ColorSwatch(t, c) => HitTarget::ColorSwatch(t.clone(), clone_opt(c)),
            HitTarget::TableMenu(id, op) => HitTarget::TableMenu(id.clone(), *op),
            HitTarget::TableCell(id, r, c) => HitTarget::TableCell(id.clone(), *r, *c),
            HitTarget::AnchorDot(id, a) => HitTarget::AnchorDot(id.clone(), *a),
            HitTarget::Minimap => HitTarget::Minimap,
        }
    }
}

impl HitView {
    /// The box that a hit belongs to, if it belongs to one.
    pub open spec fn node(self) -> Option<Seq<char>> {
        match self {
            HitView::Move(id) => Some(id),
            HitView::Resize(id, _) => Some(id),
            HitView::Connect(id, _) => Some(id),
            HitView::TableMenu(id, _) => Some(id),
            HitView::TableCell(id, _, _) => Some(id),
            HitView::AnchorDot(id, _) => Some(id),
            _ => None,
        }
    }
}

impl HitTarget {
    /// The box that a hit belongs to. A handle belongs to a connector, a
    /// color button or swatch to either, and the map to none.
    pub fn node_id(&self) -> (r: Option<&ShapeId>)
        ensures
            match r {
                Some(id) => self@.node() == Some(id@),
                None => self@.node() is None,
            },
    {
        match self {
            HitTarget::Move(id) => Some(id),
            HitTarget::Resize(id, _) => Some(id),
            HitTarget::Connect(id, _) => Some(id),
            HitTarget::TableMenu(id, _) => Some(id),
            HitTarget::TableCell(id, _, _) => Some(id),
            HitTarget::AnchorDot(id, _) => Some(id),
            _ => None,
        }
    }
}

} // verus!

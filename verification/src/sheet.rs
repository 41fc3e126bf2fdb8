//! A frame being put together: what is drawn, and what the pointer can hit
//! in it.

use vstd::prelude::*;

use crate::geometry::Rect;
use crate::model::{color_text, Color, ColorView};
use crate::paint::{
    char_at, emit, ink, ink_of, inked_under, paint_views, plain, put_char, Look, Paint, PaintView,
};
use crate::pointer::{EdgeMap, HitMap};
use crate::target::{HitTarget, HitView, Selected, SelectedView};

verus! {

/// A frame being put together.
pub struct Sheet {
    pub screen: Rect,
    pub out: Vec<Paint>,
    pub hits: HitMap,
    pub edge_hits: EdgeMap,
}

/// A frame being put together, its texts as characters.
#[verifier::ext_equal]
pub ghost struct SheetView {
    pub screen: Rect,
    pub out: Seq<PaintView>,
    pub hits: Seq<(Rect, HitView)>,
    pub edge_hits: Seq<(Rect, Seq<char>)>,
}

impl View for Sheet {
    type V = SheetView;

    open spec fn view(&self) -> SheetView {
        SheetView {
            screen: self.screen,
            out: paint_views(self.out@),
            hits: self.hits@,
            edge_hits: self.edge_hits@,
        }
    }
}

/// A frame with nothing in it yet.
pub open spec fn blank_sheet(screen: Rect) -> SheetView {
    SheetView { screen, out: Seq::empty(), hits: Seq::empty(), edge_hits: Seq::empty() }
}

impl SheetView {
    /// The frame with something more drawn.
    pub open spec fn with(self, p: PaintView) -> SheetView {
        SheetView { out: self.out.push(p), ..self }
    }

    /// The frame with one more character, where that is on the screen.
    pub open spec fn char(self, x: int, y: int, ch: char, look: Look) -> SheetView {
        SheetView { out: self.out + char_at(self.screen, x, y, ch, look), ..self }
    }

    /// The frame with something more to hit, over all before it.
    pub open spec fn hit(self, area: Rect, target: HitView) -> SheetView {
        SheetView { hits: self.hits.push((area, target)), ..self }
    }

    /// The frame with one more cell of a connector to hit.
    pub open spec fn edge_hit(self, area: Rect, id: Seq<char>) -> SheetView {
        SheetView { edge_hits: self.edge_hits.push((area, id)), ..self }
    }
}

impl Sheet {
    /// What holds of a frame at all times.
    pub open spec fn wf(&self) -> bool {
        self.hits.wf() && self.edge_hits.wf()
    }

    pub fn new(screen: Rect) -> (r: Sheet)
        ensures
            r.wf(),
            r@ == blank_sheet(screen),
    {
        let r = Sheet {
            screen,
            out: Vec::new(),
            hits: HitMap::new(),
            edge_hits: EdgeMap::new(),
        };
        proof {
            assert(r@ =~= blank_sheet(screen));
        }
        r
    }

    pub fn paint(&mut self, p: Paint)
        requires
            old(self).wf(),
        ensures
            final(self).wf(),
            final(self)@ == old(self)@.with(p@),
    {
        emit(&mut self.out, p);
    }

    pub fn put_char(&mut self, x: i64, y: i64, ch: char, look: Look)
        requires
            old(self).wf(),
        ensures
            final(self).wf(),
            final(self)@ == old(self)@.char(x as int, y as int, ch, look),
    {
        put_char(&mut self.out, self.screen, x, y, ch, look);
    }

    pub fn put_hit(&mut self, area: Rect, target: HitTarget)
        requires
            old(self).wf(),
        ensures
            final(self).wf(),
            final(self)@ == old(self)@.hit(area, target@),
    {
        self.hits.put(area, target);
    }

    pub fn put_edge_hit(&mut self, area: Rect, id: String)
        requires
            old(self).wf(),
        ensures
            final(self).wf(),
            final(self)@ == old(self)@.edge_hit(area, id@),
    {
        self.edge_hits.put(area, id);
    }
}

/// A handful of common colors beyond the six presets: a hex color is
/// otherwise only reachable from a script.
pub open spec fn hex_name(i: int) -> Seq<char> {
    if i == 0 {
        "#ffffff"@
    } else if i == 1 {
        "#000000"@
    } else if i == 2 {
        "#808080"@
    } else if i == 3 {
        "#ff69b4"@
    } else if i == 4 {
        "#3b82f6"@
    } else {
        "#8b5a2b"@
    }
}

/// The swatches of a color picker: one that clears the color, the six
/// presets, and six hex colors below.
pub const SWATCHES: u8 = 13;

/// The color that a swatch applies.
pub open spec fn swatch_color(k: int) -> Option<ColorView> {
    if k == 0 {
        None
    } else if k <= 6 {
        Some(ColorView::Preset(k as u8))
    } else {
        Some(ColorView::Hex(hex_name(k - 7)))
    }
}

/// Where a swatch goes, given where the picker's first one does.
pub open spec fn swatch_spot(x: u16, y: u16, k: int) -> (int, int) {
    if k <= 6 {
        (x + 2 * k, y as int)
    } else {
        (x + 2 * (k - 7), y + 1)
    }
}

impl SheetView {
    /// The frame with swatch `k` of a picker, where that is on the canvas.
    pub open spec fn swatch(
        self,
        target: SelectedView,
        x: u16,
        y: u16,
        area: Rect,
        k: int,
    ) -> SheetView {
        let (cx, cy) = swatch_spot(x, y, k);
        let r = crate::geometry::rect(cx as u16, cy as u16, 2, 1).shared(area);
        if cx > u16::MAX || cy > u16::MAX || r.empty() {
            self
        } else {
            match swatch_color(k) {
                None => self.hit(r, HitView::ColorSwatch(target, None)).with(
                    PaintView::Text { area: r, text: "╳ "@, look: plain() },
                ),
                Some(c) => self.hit(r, HitView::ColorSwatch(target, Some(color_text(c)))).with(
                    PaintView::Text { area: r, text: "  "@, look: inked_under(ink_of(c)) },
                ),
            }
        }
    }

    /// The frame with the first `k` swatches of a picker.
    pub open spec fn swatches(
        self,
        target: SelectedView,
        x: u16,
        y: u16,
        area: Rect,
        k: int,
    ) -> SheetView
        decreases k,
    {
        if k <= 0 {
            self
        } else {
            self.swatches(target, x, y, area, k - 1).swatch(target, x, y, area, k - 1)
        }
    }

    /// The frame with a color picker.
    pub open spec fn picker(self, target: SelectedView, x: u16, y: u16, area: Rect) -> SheetView {
        self.swatches(target, x, y, area, SWATCHES as int)
    }
}

fn hex_swatch(i: u8) -> (r: &'static str)
    ensures
        r@ == hex_name(i as int),
{
    match i {
        0 => "#ffffff",
        1 => "#000000",
        2 => "#808080",
        3 => "#ff69b4",
        4 => "#3b82f6",
        _ => "#8b5a2b",
    }
}

fn color_of_swatch(k: u8) -> (r: Option<Color>)
    requires
        k < SWATCHES,
    ensures
        crate::model::color_view(r) == swatch_color(k as int),
{
    if k == 0 {
        None
    } else if k <= 6 {
        Some(Color::Preset(k))
    } else {
        Some(Color::Hex(hex_swatch(k - 7).to_owned()))
    }
}

/// Two rows of swatches: clear and the presets, then the hex colors. Each
/// swatch is its own hit target.
pub fn draw_color_picker(sheet: &mut Sheet, target: &Selected, x: u16, y: u16, area: Rect)
    requires
        old(sheet).wf(),
    ensures
        final(sheet).wf(),
        final(sheet)@ == old(sheet)@.picker(target@, x, y, area),
{
    let mut k: u8 = 0;
    while k < SWATCHES
        invariant
            k <= SWATCHES,
            sheet.wf(),
            sheet@ == old(sheet)@.swatches(target@, x, y, area, k as int),
        decreases SWATCHES - k,
    {
        let (cx, cy): (u32, u32) = if k <= 6 {
            (x as u32 + 2 * k as u32, y as u32)
        } else {
            (x as u32 + 2 * (k as u32 - 7), y as u32 + 1)
        };
        if cx <= u16::MAX as u32 && cy <= u16::MAX as u32 {
            let spot: Rect = Rect::new(cx as u16, cy as u16, 2, 1);
            let r: Rect = spot.intersection(&area);
            if !r.is_empty() {
                match color_of_swatch(k) {
                    None => {
                        sheet.put_hit(r, HitTarget::ColorSwatch(target.clone(), None));
                        sheet.paint(
                            Paint::Text { area: r, text: "╳ ".to_owned(), look: Look::plain() },
                        );
                    },
                    Some(c) => {
                        let name: String = c.to_string();
                        let look: Look = Look::bg(ink(&c));
                        sheet.put_hit(r, HitTarget::ColorSwatch(target.clone(), Some(name)));
                        sheet.paint(Paint::Text { area: r, text: "  ".to_owned(), look });
                    },
                }
            }
        }
        k += 1;
    }
}

} // verus!

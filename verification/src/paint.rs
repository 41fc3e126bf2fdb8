//! What is drawn: characters, texts and frames, each with its look.

use vstd::prelude::*;

use crate::geometry::Rect;
use crate::model::{color_view, Color, ColorView, KindView, Node, NodeKind};
use crate::target::Corner;
use crate::text::to_chars;

verus! {

/// A terminal color.
#[derive(Debug, Clone, Copy, PartialEq, Eq, Structural)]
pub enum Ink {
    Reset,
    Red,
    Yellow,
    Green,
    Cyan,
    White,
    Gray,
    DarkGray,
    Rgb(u8, u8, u8),
}

/// How something is drawn.
#[derive(Debug, Clone, Copy, PartialEq, Eq, Structural)]
pub struct Look {
    pub fg: Option<Ink>,
    pub bg: Option<Ink>,
    pub bold: bool,
    pub reversed: bool,
}

/// Something to draw. What comes later is drawn over what came before.
#[derive(Debug)]
pub enum Paint {
    /// One character.
    Glyph { x: u16, y: u16, ch: char, look: Look },
    /// A text on one line, cut where its area ends.
    Text { area: Rect, text: String, look: Look },
    /// A text that wraps at the end of a line.
    Wrapped { area: Rect, text: String, look: Look },
    /// Texts one after the other on one line.
    Spans { area: Rect, spans: Vec<(String, Look)> },
    /// A border.
    Frame { area: Rect, rounded: bool, look: Look },
    /// A border with a title on it.
    Panel { area: Rect, title: String, look: Look },
    /// An area in one look.
    Fill { area: Rect, look: Look },
    /// An area with nothing left of what came before.
    Blank { area: Rect },
    /// One character in the look that is there already.
    Symbol { x: u16, y: u16, ch: char },
}

/// Something to draw, its texts as characters.
pub ghost enum PaintView {
    Glyph { x: u16, y: u16, ch: char, look: Look },
    Text { area: Rect, text: Seq<char>, look: Look },
    Wrapped { area: Rect, text: Seq<char>, look: Look },
    Spans { area: Rect, spans: Seq<(Seq<char>, Look)> },
    Frame { area: Rect, rounded: bool, look: Look },
    Panel { area: Rect, title: Seq<char>, look: Look },
    Fill { area: Rect, look: Look },
    Blank { area: Rect },
    Symbol { x: u16, y: u16, ch: char },
}

/// Texts with their looks.
pub open spec fn span_views(s: Seq<(String, Look)>) -> Seq<(Seq<char>, Look)> {
    Seq::new(s.len(), |i: int| (s[i].0@, s[i].1))
}

impl View for Paint {
    type V = PaintView;

    open spec fn view(&self) -> PaintView {
        match self {
            Paint::Glyph { x, y, ch, look } => PaintView::Glyph {
                x: *x,
                y: *y,
                ch: *ch,
                look: *look,
            },
            Paint::Text { area, text, look } => PaintView::Text {
                area: *area,
                text: text@,
                look: *look,
            },
            Paint::Wrapped { area, text, look } => PaintView::Wrapped {
                area: *area,
                text: text@,
                look: *look,
            },
            Paint::Spans { area, spans } => PaintView::Spans {
                area: *area,
                spans: span_views(spans@),
            },
            Paint::Frame { area, rounded, look } => PaintView::Frame {
                area: *area,
                rounded: *rounded,
                look: *look,
            },
            Paint::Panel { area, title, look } => PaintView::Panel {
                area: *area,
                title: title@,
                look: *look,
            },
            Paint::Fill { area, look } => PaintView::Fill { area: *area, look: *look },
            Paint::Blank { area } => PaintView::Blank { area: *area },
            Paint::Symbol { x, y, ch } => PaintView::Symbol { x: *x, y: *y, ch: *ch },
        }
    }
}

/// The views of what is drawn.
pub open spec fn paint_views(s: Seq<Paint>) -> Seq<PaintView> {
    Seq::new(s.len(), |i: int| s[i]@)
}

/// Adds something to draw.
pub fn emit(out: &mut Vec<Paint>, paint: Paint)
    ensures
        paint_views(final(out)@) == paint_views(old(out)@).push(paint@),
{
    let ghost before = paint_views(out@);
    let ghost shown = paint@;
    out.push(paint);
    proof {
        assert(paint_views(out@) =~= before.push(shown));
    }
}

/// No look at all.
pub open spec fn plain() -> Look {
    Look { fg: None, bg: None, bold: false, reversed: false }
}

/// The look of a text in a color.
pub open spec fn inked(ink: Ink) -> Look {
    Look { fg: Some(ink), ..plain() }
}

/// The look of a text in a color, or none.
pub open spec fn opt_inked(ink: Option<Ink>) -> Look {
    Look { fg: ink, ..plain() }
}

/// The look of a text on a color.
pub open spec fn inked_under(ink: Ink) -> Look {
    Look { bg: Some(ink), ..plain() }
}

impl Look {
    pub fn plain() -> (r: Look)
        ensures
            r == plain(),
    {
        Look { fg: None, bg: None, bold: false, reversed: false }
    }

    pub fn fg(ink: Ink) -> (r: Look)
        ensures
            r == inked(ink),
    {
        Look { fg: Some(ink), bg: None, bold: false, reversed: false }
    }

    pub fn bg(ink: Ink) -> (r: Look)
        ensures
            r == inked_under(ink),
    {
        Look { fg: None, bg: Some(ink), bold: false, reversed: false }
    }
}

/// What a character at a point comes to: nothing off the screen.
pub open spec fn char_at(screen: Rect, x: int, y: int, ch: char, look: Look) -> Seq<PaintView> {
    if x < screen.x || y < screen.y || x >= screen.x_end() || y >= screen.y_end() {
        Seq::empty()
    } else {
        seq![PaintView::Glyph { x: x as u16, y: y as u16, ch, look }]
    }
}

/// Draws a character where it is on the screen.
pub fn put_char(out: &mut Vec<Paint>, screen: Rect, x: i64, y: i64, ch: char, look: Look)
    ensures
        paint_views(final(out)@) == paint_views(old(out)@) + char_at(
            screen,
            x as int,
            y as int,
            ch,
            look,
        ),
{
    let ghost before = paint_views(out@);
    if x < screen.x as i64 || y < screen.y as i64 || x >= screen.right() as i64 || y
        >= screen.bottom() as i64 {
        proof {
            assert(before + Seq::<PaintView>::empty() =~= before);
        }
        return;
    }
    emit(out, Paint::Glyph { x: x as u16, y: y as u16, ch, look });
    proof {
        assert(paint_views(out@) =~= before + char_at(screen, x as int, y as int, ch, look));
    }
}

/// The value of a hex digit.
pub open spec fn hex_digit(c: char) -> Option<u8> {
    if '0' <= c <= '9' {
        Some((c as u8 - '0' as u8) as u8)
    } else if 'a' <= c <= 'f' {
        Some((c as u8 - 'a' as u8 + 10) as u8)
    } else if 'A' <= c <= 'F' {
        Some((c as u8 - 'A' as u8 + 10) as u8)
    } else {
        None
    }
}

/// The value of two hex digits; a plus sign counts as a leading 0.
pub open spec fn hex_byte(a: char, b: char) -> Option<u8> {
    match hex_digit(b) {
        None => None,
        Some(low) => if a == '+' {
            Some(low)
        } else {
            match hex_digit(a) {
                Some(high) => Some((16 * high + low) as u8),
                None => None,
            }
        },
    }
}

/// The color that a text like "#ff8800" names.
pub open spec fn hex_ink(s: Seq<char>) -> Option<Ink> {
    if s.len() != 7 || s[0] != '#' {
        None
    } else {
        match (hex_byte(s[1], s[2]), hex_byte(s[3], s[4]), hex_byte(s[5], s[6])) {
            (Some(r), Some(g), Some(b)) => Some(Ink::Rgb(r, g, b)),
            _ => None,
        }
    }
}

/// The terminal color that a box's color shows in.
pub open spec fn ink_of(c: ColorView) -> Ink {
    match c {
        ColorView::Preset(n) => if n == 1 {
            Ink::Red
        } else if n == 2 {
            Ink::Rgb(255, 140, 0)
        } else if n == 3 {
            Ink::Yellow
        } else if n == 4 {
            Ink::Green
        } else if n == 5 {
            Ink::Cyan
        } else if n == 6 {
            Ink::Rgb(160, 32, 240)
        } else {
            Ink::Reset
        },
        ColorView::Hex(s) => match hex_ink(s) {
            Some(ink) => ink,
            None => Ink::Reset,
        },
    }
}

/// The terminal color of an optional color.
pub open spec fn opt_ink(c: Option<ColorView>) -> Option<Ink> {
    match c {
        Some(c) => Some(ink_of(c)),
        None => None,
    }
}

fn read_digit(c: char) -> (r: Option<u8>)
    ensures
        r == hex_digit(c),
        r matches Some(n) ==> n < 16,
{
    if '0' <= c && c <= '9' {
        Some(c as u8 - '0' as u8)
    } else if 'a' <= c && c <= 'f' {
        Some(c as u8 - 'a' as u8 + 10)
    } else if 'A' <= c && c <= 'F' {
        Some(c as u8 - 'A' as u8 + 10)
    } else {
        None
    }
}

fn read_byte(a: char, b: char) -> (r: Option<u8>)
    ensures
        r == hex_byte(a, b),
{
    match read_digit(b) {
        None => None,
        Some(low) => if a == '+' {
            Some(low)
        } else {
            match read_digit(a) {
                Some(high) => Some(16 * high + low),
                None => None,
            }
        },
    }
}

/// The color that a text like "#ff8800" names.
pub fn parse_hex(hex: &str) -> (r: Option<Ink>)
    ensures
        r == hex_ink(hex@),
{
    let v: Vec<char> = to_chars(hex);
    if v.len() != 7 || v[0] != '#' {
        return None;
    }
    match (read_byte(v[1], v[2]), read_byte(v[3], v[4]), read_byte(v[5], v[6])) {
        (Some(r), Some(g), Some(b)) => Some(Ink::Rgb(r, g, b)),
        _ => None,
    }
}

/// The terminal color that a box's color shows in.
pub fn ink(color: &Color) -> (r: Ink)
    ensures
        r == ink_of(color@),
{
    match color {
        Color::Preset(n) => match *n {
            1 => Ink::Red,
            2 => Ink::Rgb(255, 140, 0),
            3 => Ink::Yellow,
            4 => Ink::Green,
            5 => Ink::Cyan,
            6 => Ink::Rgb(160, 32, 240),
            _ => Ink::Reset,
        },
        Color::Hex(hex) => match parse_hex(hex.as_str()) {
            Some(ink) => ink,
            None => Ink::Reset,
        },
    }
}

/// The terminal color of an optional color.
pub fn ink_opt(color: &Option<Color>) -> (r: Option<Ink>)
    ensures
        r == opt_ink(color_view(*color)),
{
    match color {
        Some(c) => Some(ink(c)),
        None => None,
    }
}

/// The color that shows: the one previewed, if any.
pub open spec fn shown_ink(own: Option<Ink>, preview: Option<Option<Ink>>) -> Option<Ink> {
    match preview {
        Some(p) => p,
        None => own,
    }
}

/// The look of a border or a line: bold while selected, in a color of its
/// own only where there is no other.
pub open spec fn line_look(shown: Option<Ink>, selected: bool) -> Look {
    if selected {
        Look {
            fg: match shown {
                Some(ink) => Some(ink),
                None => Some(Ink::Cyan),
            },
            bold: true,
            ..plain()
        }
    } else {
        opt_inked(shown)
    }
}

/// The look of a border or a line in the color that shows.
pub fn style_of(shown: Option<Ink>, selected: bool) -> (r: Look)
    ensures
        r == line_look(shown, selected),
{
    if selected {
        let fg: Option<Ink> = match shown {
            Some(ink) => Some(ink),
            None => Some(Ink::Cyan),
        };
        Look { fg, bg: None, bold: true, reversed: false }
    } else {
        Look { fg: shown, bg: None, bold: false, reversed: false }
    }
}

/// A box's looks: its content's and its border's. `preview`, while a swatch
/// of the color picker is hovered, is the color that it would apply;
/// `Some(None)` previews clearing it.
pub fn node_style(color: &Option<Color>, selected: bool, preview: Option<Option<Ink>>) -> (r: (
    Look,
    Look,
))
    ensures
        r.0 == opt_inked(shown_ink(opt_ink(color_view(*color)), preview)),
        r.1 == line_look(shown_ink(opt_ink(color_view(*color)), preview), selected),
{
    let shown: Option<Ink> = match preview {
        Some(p) => p,
        None => ink_opt(color),
    };
    (style_of(shown, false), style_of(shown, selected))
}

/// The text that a box shows.
pub open spec fn shown_text(k: KindView) -> Seq<char> {
    match k {
        KindView::Text(t) => t,
        KindView::File { path, .. } => "[file] "@ + path,
        KindView::Link(url) => "[link] "@ + url,
        KindView::Group { label, .. } => match label {
            Some(l) => "[group] "@ + l,
            None => "[group]"@,
        },
    }
}

/// The text that a box shows.
pub fn display_text(node: &Node) -> (r: String)
    ensures
        r@ == shown_text(node@.kind),
{
    match &node.kind {
        NodeKind::Text(t) => t.clone(),
        NodeKind::File { path, .. } => {
            let mut s: String = "[file] ".to_owned();
            s.append(path.as_str());
            s
        },
        NodeKind::Link(url) => {
            let mut s: String = "[link] ".to_owned();
            s.append(url.as_str());
            s
        },
        NodeKind::Group { label, .. } => match label {
            Some(l) => {
                let mut s: String = "[group] ".to_owned();
                s.append(l.as_str());
                s
            },
            None => "[group]".to_owned(),
        },
    }
}

/// The cell at a corner of a rectangle.
pub open spec fn corner_cell(r: Rect, corner: Corner) -> Rect {
    let (x, y) = match corner {
        Corner::TopLeft => (r.x as int, r.y as int),
        Corner::TopRight => (r.x_end() - 1, r.y as int),
        Corner::BottomLeft => (r.x as int, r.y_end() - 1),
        Corner::BottomRight => (r.x_end() - 1, r.y_end() - 1),
    };
    crate::geometry::rect(x as u16, y as u16, 1, 1)
}

/// The cells at the corners of a rectangle, each with the corner that it
/// is.
pub fn corner_rects(r: Rect) -> (v: Vec<(Corner, Rect)>)
    requires
        !r.empty(),
    ensures
        v@ == seq![
            (Corner::TopLeft, corner_cell(r, Corner::TopLeft)),
            (Corner::TopRight, corner_cell(r, Corner::TopRight)),
            (Corner::BottomLeft, corner_cell(r, Corner::BottomLeft)),
            (Corner::BottomRight, corner_cell(r, Corner::BottomRight)),
        ],
{
    let right: u16 = r.right() - 1;
    let bottom: u16 = r.bottom() - 1;
    let mut v: Vec<(Corner, Rect)> = Vec::new();
    v.push((Corner::TopLeft, Rect::new(r.x, r.y, 1, 1)));
    v.push((Corner::TopRight, Rect::new(right, r.y, 1, 1)));
    v.push((Corner::BottomLeft, Rect::new(r.x, bottom, 1, 1)));
    v.push((Corner::BottomRight, Rect::new(right, bottom, 1, 1)));
    v
}

} // verus!

//! Rectangles of terminal cells.

use vstd::prelude::*;

verus! {

/// A rectangle on the screen.
#[derive(Debug, Clone, Copy, PartialEq, Eq, Structural)]
pub struct Rect {
    pub x: u16,
    pub y: u16,
    pub width: u16,
    pub height: u16,
}

/// `n` cut to what 16 bits hold.
pub open spec fn to_u16(n: int) -> u16 {
    if n < 0 {
        0
    } else if n > u16::MAX {
        u16::MAX
    } else {
        n as u16
    }
}

/// `n` cut to what 32 bits hold.
pub open spec fn to_i32(n: int) -> i32 {
    if n < i32::MIN {
        i32::MIN
    } else if n > i32::MAX {
        i32::MAX
    } else {
        n as i32
    }
}

/// The larger of two integers.
pub open spec fn max(a: int, b: int) -> int {
    if a < b {
        b
    } else {
        a
    }
}

/// The smaller of two integers.
pub open spec fn min(a: int, b: int) -> int {
    if a < b {
        a
    } else {
        b
    }
}

/// A rectangle of the given size, cut where it would pass the last cell.
pub open spec fn rect(x: u16, y: u16, width: u16, height: u16) -> Rect {
    Rect {
        x,
        y,
        width: (to_u16(x + width) - x) as u16,
        height: (to_u16(y + height) - y) as u16,
    }
}

impl Rect {
    /// Whether the rectangle ends on a screen of any size.
    pub open spec fn fits(self) -> bool {
        self.x + self.width <= u16::MAX && self.y + self.height <= u16::MAX
    }

    /// The column past the rectangle.
    pub open spec fn x_end(self) -> u16 {
        to_u16(self.x + self.width)
    }

    /// The row past the rectangle.
    pub open spec fn y_end(self) -> u16 {
        to_u16(self.y + self.height)
    }

    /// Whether a cell lies in the rectangle.
    pub open spec fn has(self, x: u16, y: u16) -> bool {
        self.x <= x < self.x_end() && self.y <= y < self.y_end()
    }

    /// Whether the rectangle has no cells.
    pub open spec fn empty(self) -> bool {
        self.width == 0 || self.height == 0
    }

    /// The cells that two rectangles share.
    pub open spec fn shared(self, other: Rect) -> Rect {
        let x1 = max(self.x as int, other.x as int);
        let y1 = max(self.y as int, other.y as int);
        let x2 = min(self.x_end() as int, other.x_end() as int);
        let y2 = min(self.y_end() as int, other.y_end() as int);
        Rect {
            x: x1 as u16,
            y: y1 as u16,
            width: max(x2 - x1, 0) as u16,
            height: max(y2 - y1, 0) as u16,
        }
    }

    /// Makes a rectangle, cut where it would pass the last cell.
    pub fn new(x: u16, y: u16, width: u16, height: u16) -> (r: Rect)
        ensures
            r == rect(x, y, width, height),
    {
        Rect {
            x,
            y,
            width: x.saturating_add(width) - x,
            height: y.saturating_add(height) - y,
        }
    }

    /// The column past the rectangle.
    pub fn right(&self) -> (r: u16)
        ensures
            r == self.x_end(),
    {
        self.x.saturating_add(self.width)
    }

    /// The row past the rectangle.
    pub fn bottom(&self) -> (r: u16)
        ensures
            r == self.y_end(),
    {
        self.y.saturating_add(self.height)
    }

    /// Whether a cell lies in the rectangle.
    pub fn contains(&self, x: u16, y: u16) -> (r: bool)
        ensures
            r == self.has(x, y),
    {
        self.x <= x && x < self.right() && self.y <= y && y < self.bottom()
    }

    /// Whether the rectangle has no cells.
    pub fn is_empty(&self) -> (r: bool)
        ensures
            r == self.empty(),
    {
        self.width == 0 || self.height == 0
    }

    /// The cells that two rectangles share.
    pub fn intersection(&self, other: &Rect) -> (r: Rect)
        ensures
            r == self.shared(*other),
    {
        let x1: u16 = if self.x < other.x {
            other.x
        } else {
            self.x
        };
        let y1: u16 = if self.y < other.y {
            other.y
        } else {
            self.y
        };
        let x2: u16 = if self.right() < other.right() {
            self.right()
        } else {
            other.right()
        };
        let y2: u16 = if self.bottom() < other.bottom() {
            self.bottom()
        } else {
            other.bottom()
        };
        Rect { x: x1, y: y1, width: x2.saturating_sub(x1), height: y2.saturating_sub(y1) }
    }
}

impl Default for Rect {
    fn default() -> (r: Rect)
        ensures
            r == (Rect { x: 0, y: 0, width: 0, height: 0 }),
    {
        Rect { x: 0, y: 0, width: 0, height: 0 }
    }
}

/// `n` cut to what 32 bits hold.
pub fn clamp_i32(v: i64) -> (r: i32)
    ensures
        r == to_i32(v as int),
{
    if v < i32::MIN as i64 {
        i32::MIN
    } else if v > i32::MAX as i64 {
        i32::MAX
    } else {
        v as i32
    }
}

/// `n` cut to what 16 bits hold.
pub fn clamp_u16(v: i64) -> (r: u16)
    ensures
        r == to_u16(v as int),
{
    if v < 0 {
        0
    } else if v > u16::MAX as i64 {
        u16::MAX
    } else {
        v as u16
    }
}

} // verus!

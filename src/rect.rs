use vstd::prelude::*;

verus! {

/// An axis-aligned rectangle given by its corners, both inclusive.
#[derive(Clone, Copy, Debug, PartialEq, Eq, Structural)]
pub struct Rect {
    pub x1: i32,
    pub x2: i32,
    pub y1: i32,
    pub y2: i32,
}

impl Rect {
    /// Whether two rectangles share at least one cell (edges included).
    pub open spec fn overlaps(self, other: Rect) -> bool {
        self.x1 <= other.x2 && self.x2 >= other.x1 && self.y1 <= other.y2 && self.y2 >= other.y1
    }

    pub open spec fn center_spec(self) -> (int, int) {
        ((self.x1 + self.x2) / 2, (self.y1 + self.y2) / 2)
    }

    /// A rectangle with top-left corner `(x, y)`, `w` wide and `h` high.
    pub fn new(x: i32, y: i32, w: i32, h: i32) -> (r: Rect)
        requires
            0 <= w,
            0 <= h,
            x + w <= i32::MAX,
            y + h <= i32::MAX,
        ensures
            r == (Rect { x1: x, y1: y, x2: (x + w) as i32, y2: (y + h) as i32 }),
    {
        Rect { x1: x, y1: y, x2: x + w, y2: y + h }
    }

    /// Whether this rectangle overlaps `other`.
    pub fn intersect(&self, other: &Rect) -> (r: bool)
        ensures
            r == self.overlaps(*other),
    {
        self.x1 <= other.x2 && self.x2 >= other.x1 && self.y1 <= other.y2 && self.y2 >= other.y1
    }

    /// The middle cell, rounding towards the top-left.
    pub fn center(&self) -> (r: (i32, i32))
        ensures
            r.0 as int == self.center_spec().0,
            r.1 as int == self.center_spec().1,
    {
        (half_floor(self.x1, self.x2), half_floor(self.y1, self.y2))
    }
}

/// `(a + b) / 2`, rounded down.
fn half_floor(a: i32, b: i32) -> (r: i32)
    ensures
        r as int == (a + b) / 2,
{
    let shifted: u64 = (a as i64 + b as i64 + 0x1_0000_0000) as u64;
    ((shifted / 2) as i64 - 0x8000_0000) as i32
}

} // verus!

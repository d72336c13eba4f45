use vstd::prelude::*;

verus! {

/// Smallest room dimension the generator will produce; a rectangle is only
/// split where both halves keep at least this much on the split axis.
pub const MIN_SIZE: u16 = 4;

/// A cell position on the grid.
#[derive(Debug, Clone, Copy, PartialEq, Eq, Structural)]
pub struct Vec2 {
    pub x: u16,
    pub y: u16,
}

impl Default for Vec2 {
    fn default() -> (r: Self)
        ensures
            r.x == 0 && r.y == 0,
    {
        Vec2 { x: 0, y: 0 }
    }
}

/// An axis-aligned rectangle in grid coordinates, `left <= right` and
/// `top <= bottom`; `right` and `bottom` are part of the rectangle's span.
#[derive(Debug, Clone, Copy, PartialEq, Eq, Structural)]
pub struct Rect {
    pub left: u16,
    pub top: u16,
    pub right: u16,
    pub bottom: u16,
}

impl Rect {
    pub open spec fn wf(&self) -> bool {
        self.left <= self.right && self.top <= self.bottom
    }

    pub open spec fn spec_width(&self) -> int {
        self.right - self.left
    }

    pub open spec fn spec_height(&self) -> int {
        self.bottom - self.top
    }

    pub open spec fn spec_area(&self) -> int {
        self.spec_width() * self.spec_height()
    }

    pub fn width(&self) -> (r: u16)
        requires
            self.wf(),
        ensures
            r == self.spec_width(),
    {
        self.right - self.left
    }

    pub fn height(&self) -> (r: u16)
        requires
            self.wf(),
        ensures
            r == self.spec_height(),
    {
        self.bottom - self.top
    }

    pub fn area(&self) -> (r: u16)
        requires
            self.wf(),
            self.spec_area() <= u16::MAX,
        ensures
            r == self.spec_area(),
    {
        self.width() * self.height()
    }

    pub fn center(&self) -> (r: (u16, u16))
        requires
            self.left + self.right <= u16::MAX,
            self.top + self.bottom <= u16::MAX,
        ensures
            r.0 == (self.left + self.right) as int / 2,
            r.1 == (self.top + self.bottom) as int / 2,
    {
        ((self.left + self.right) / 2, (self.top + self.bottom) / 2)
    }

    pub open spec fn spec_vsplittable(&self) -> bool {
        self.spec_width() > 2 * MIN_SIZE
    }

    pub open spec fn spec_hsplittable(&self) -> bool {
        self.spec_height() > 2 * MIN_SIZE
    }

    pub fn vsplittable(&self) -> (r: bool)
        requires
            self.wf(),
        ensures
            r == self.spec_vsplittable(),
    {
        self.width() > MIN_SIZE * 2
    }

    pub fn hsplittable(&self) -> (r: bool)
        requires
            self.wf(),
        ensures
            r == self.spec_hsplittable(),
    {
        self.height() > MIN_SIZE * 2
    }

    /// The half-open interval of valid vertical split coordinates: every
    /// coordinate in it leaves at least `MIN_SIZE` on both sides.
    pub fn vsplit_range(&self) -> (r: (u16, u16))
        requires
            self.wf(),
            self.spec_vsplittable(),
        ensures
            r.0 == self.left + MIN_SIZE,
            r.1 == self.right - MIN_SIZE,
            r.0 < r.1,
    {
        (self.left + MIN_SIZE, self.right - MIN_SIZE)
    }

    pub fn hsplit_range(&self) -> (r: (u16, u16))
        requires
            self.wf(),
            self.spec_hsplittable(),
        ensures
            r.0 == self.top + MIN_SIZE,
            r.1 == self.bottom - MIN_SIZE,
            r.0 < r.1,
    {
        (self.top + MIN_SIZE, self.bottom - MIN_SIZE)
    }

    /// Split at vertical line `midpoint`: the two halves share that line and
    /// together cover the rectangle exactly.
    pub fn vsplit(&self, midpoint: u16) -> (r: (Rect, Rect))
        requires
            self.wf(),
            self.left <= midpoint <= self.right,
        ensures
            r.0 == (Rect { left: self.left, top: self.top, right: midpoint, bottom: self.bottom }),
            r.1 == (Rect { left: midpoint, top: self.top, right: self.right, bottom: self.bottom }),
    {
        (
            Rect { left: self.left, top: self.top, right: midpoint, bottom: self.bottom },
            Rect { left: midpoint, top: self.top, right: self.right, bottom: self.bottom },
        )
    }

    pub fn hsplit(&self, midpoint: u16) -> (r: (Rect, Rect))
        requires
            self.wf(),
            self.top <= midpoint <= self.bottom,
        ensures
            r.0 == (Rect { left: self.left, top: self.top, right: self.right, bottom: midpoint }),
            r.1 == (Rect { left: self.left, top: midpoint, right: self.right, bottom: self.bottom }),
    {
        (
            Rect { left: self.left, top: self.top, right: self.right, bottom: midpoint },
            Rect { left: self.left, top: midpoint, right: self.right, bottom: self.bottom },
        )
    }

    /// Shrink from the top-left corner by per-mille factors (1000 keeps the
    /// full span), never below `MIN_SIZE` on either axis.
    pub fn trimmed(self, w_mill: u16, h_mill: u16) -> (r: Rect)
        requires
            self.wf(),
            self.spec_width() >= MIN_SIZE,
            self.spec_height() >= MIN_SIZE,
            w_mill <= 1000,
            h_mill <= 1000,
        ensures
            r.left == self.left,
            r.top == self.top,
            r.right <= self.right,
            r.bottom <= self.bottom,
            r.spec_width() == max_int(MIN_SIZE as int, self.spec_width() * w_mill / 1000),
            r.spec_height() == max_int(MIN_SIZE as int, self.spec_height() * h_mill / 1000),
            r.wf(),
    {
        let w = self.width();
        let h = self.height();
        proof {
            assert(w * w_mill <= 65535 * 1000 && h * h_mill <= 65535 * 1000) by (nonlinear_arith)
                requires
                    0 <= w <= 65535 && 0 <= h <= 65535 && 0 <= w_mill <= 1000 && 0 <= h_mill
                        <= 1000,
            ;
        }
        let tw64: u64 = (w as u64) * (w_mill as u64) / 1000;
        let th64: u64 = (h as u64) * (h_mill as u64) / 1000;
        proof {
            lemma_mill_shrinks(w as int, w_mill as int);
            lemma_mill_shrinks(h as int, h_mill as int);
        }
        let tw: u16 = if tw64 < MIN_SIZE as u64 { MIN_SIZE } else { tw64 as u16 };
        let th: u16 = if th64 < MIN_SIZE as u64 { MIN_SIZE } else { th64 as u16 };
        Rect { left: self.left, top: self.top, right: self.left + tw, bottom: self.top + th }
    }
}

pub open spec fn max_int(a: int, b: int) -> int {
    if a >= b { a } else { b }
}

proof fn lemma_mill_shrinks(w: int, mill: int)
    requires
        0 <= w,
        0 <= mill <= 1000,
    ensures
        w * mill / 1000 <= w,
        mill == 1000 ==> w * mill / 1000 == w,
{
    assert(w * mill / 1000 <= w) by (nonlinear_arith)
        requires
            0 <= w,
            0 <= mill <= 1000,
    ;
    assert(mill == 1000 ==> w * mill / 1000 == w) by (nonlinear_arith)
        requires
            0 <= w,
    ;
}

} // verus!

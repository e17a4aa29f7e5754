use vstd::prelude::*;

verus! {

/// An axis-aligned rectangle: top-left corner `(x, y)`, width `w`, height `h`.
#[derive(Clone, Copy, Debug, PartialEq, Eq, Structural)]
pub struct Rect {
    pub x: u32,
    pub y: u32,
    pub w: u32,
    pub h: u32,
}

/// Mathematical model of a rectangle.
pub ghost struct Area {
    pub x: int,
    pub y: int,
    pub w: int,
    pub h: int,
}

impl View for Rect {
    type V = Area;

    open spec fn view(&self) -> Area {
        Area { x: self.x as int, y: self.y as int, w: self.w as int, h: self.h as int }
    }
}

/// The rectangle's far edges stay within the `u32` coordinate range.
pub open spec fn bounded(a: Area) -> bool {
    &&& 0 <= a.x
    &&& 0 <= a.y
    &&& 0 <= a.w
    &&& 0 <= a.h
    &&& a.x + a.w <= u32::MAX
    &&& a.y + a.h <= u32::MAX
}

/// `c` lies within `a`.
pub open spec fn inside(c: Area, a: Area) -> bool {
    &&& a.x <= c.x
    &&& a.y <= c.y
    &&& c.x + c.w <= a.x + a.w
    &&& c.y + c.h <= a.y + a.h
}

/// `a` and `b` share no interior point: one lies wholly to one side of the other.
pub open spec fn disjoint(a: Area, b: Area) -> bool {
    ||| a.x + a.w <= b.x
    ||| b.x + b.w <= a.x
    ||| a.y + a.h <= b.y
    ||| b.y + b.h <= a.y
}

/// The area covered.
pub open spec fn size(a: Area) -> int {
    a.w * a.h
}

impl Rect {
    /// The rectangle with corner `(x, y)`, width `w` and height `h`.
    pub fn new(x: u32, y: u32, w: u32, h: u32) -> (r: Rect)
        ensures
            r.x == x && r.y == y && r.w == w && r.h == h,
    {
        Rect { x, y, w, h }
    }
}

} // verus!

//! What the collision resolver needs to know of a body: where it is, how
//! large it is and how fast it moves.

use vstd::prelude::*;

verus! {

/// An axis-aligned rectangle, given by its top-left corner and its size.
pub ghost struct Rect {
    pub x: int,
    pub y: int,
    pub w: int,
    pub h: int,
}

/// The rectangle described by four coordinates in the order x, y, width,
/// height.
pub open spec fn rect_of(b: [i64; 4]) -> Rect {
    Rect { x: b[0] as int, y: b[1] as int, w: b[2] as int, h: b[3] as int }
}

/// A body with a position and a size.
pub trait Bounds {
    /// The rectangle the body occupies.
    spec fn rect(&self) -> Rect;

    fn x(&self) -> (r: i64)
        ensures
            r == self.rect().x,
    ;

    fn y(&self) -> (r: i64)
        ensures
            r == self.rect().y,
    ;

    fn w(&self) -> (r: i64)
        ensures
            r == self.rect().w,
    ;

    fn h(&self) -> (r: i64)
        ensures
            r == self.rect().h,
    ;

    /// The four coordinates of the body: x, y, width, height.
    fn bounds(&self) -> (r: [i64; 4])
        ensures
            rect_of(r) == self.rect(),
    {
        [self.x(), self.y(), self.w(), self.h()]
    }
}

impl Bounds for [i64; 4] {
    open spec fn rect(&self) -> Rect {
        rect_of(*self)
    }

    fn x(&self) -> (r: i64) {
        self[0]
    }

    fn y(&self) -> (r: i64) {
        self[1]
    }

    fn w(&self) -> (r: i64) {
        self[2]
    }

    fn h(&self) -> (r: i64) {
        self[3]
    }
}

/// A body with a velocity, in sub-units per second.
pub trait Speed {
    /// Horizontal and vertical velocity.
    spec fn velocity(&self) -> (int, int);

    fn dx(&self) -> (r: i64)
        ensures
            r == self.velocity().0,
    ;

    fn dy(&self) -> (r: i64)
        ensures
            r == self.velocity().1,
    ;
}

} // verus!

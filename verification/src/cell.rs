//! One tile of the grid, in world coordinates.

use crate::entity::{Bounds, Rect};
use vstd::prelude::*;

verus! {

/// A tile of the map: its rectangle in sub-units and whether it is solid.
/// Cells are derived from the grid on demand and never stored.
#[derive(Debug, Clone, Copy, PartialEq, Eq, Structural)]
pub struct Cell {
    pub x: i64,
    pub y: i64,
    pub w: i64,
    pub h: i64,
    pub state: bool,
}

impl Bounds for Cell {
    open spec fn rect(&self) -> Rect {
        Rect { x: self.x as int, y: self.y as int, w: self.w as int, h: self.h as int }
    }

    fn x(&self) -> (r: i64) {
        self.x
    }

    fn y(&self) -> (r: i64) {
        self.y
    }

    fn w(&self) -> (r: i64) {
        self.w
    }

    fn h(&self) -> (r: i64) {
        self.h
    }
}

} // verus!

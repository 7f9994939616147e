//! What there is to draw of the shots.

use crate::color::Color;
use crate::shot::Shot;
use crate::shot_controller::ShotController;
use vstd::prelude::*;

verus! {

/// The view of the shots.
#[derive(Debug)]
pub struct ShotView {}

/// A shot as it is drawn: an ellipse within a rectangle in world
/// sub-units, in the color of the shot.
#[derive(Debug, Clone, Copy, PartialEq, Eq, Structural)]
pub struct ShotSprite {
    pub x: i64,
    pub y: i64,
    pub w: i64,
    pub h: i64,
    pub color: Color,
}

/// How the shot `s` is drawn.
pub open spec fn sprite_of(s: Shot) -> ShotSprite {
    ShotSprite { x: s.state.x, y: s.state.y, w: s.w, h: s.h, color: s.color }
}

impl Default for ShotView {
    fn default() -> (r: Self) {
        Self {  }
    }
}

impl ShotView {
    pub fn new() -> (r: Self) {
        Self {  }
    }

    /// The shots, in order, as they are drawn.
    pub fn sprites(&self, controller: &ShotController) -> (r: Vec<ShotSprite>)
        ensures
            r@ == controller.shots@.map_values(|s: Shot| sprite_of(s)),
    {
        let mut r: Vec<ShotSprite> = Vec::new();
        let mut i: usize = 0;
        while i < controller.shots.len()
            invariant
                i <= controller.shots.len(),
                r.len() == i,
                forall|j: int| 0 <= j < i ==> #[trigger] r[j] == sprite_of(controller.shots[j]),
            decreases controller.shots.len() - i,
        {
            let shot = &controller.shots[i];
            r.push(
                ShotSprite { x: shot.state.x, y: shot.state.y, w: shot.w, h: shot.h,
                    color: shot.color },
            );
            i += 1;
        }
        assert(r@ =~= controller.shots@.map_values(|s: Shot| sprite_of(s)));
        r
    }
}

} // verus!

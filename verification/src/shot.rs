//! Shots: bouncing projectiles, each tagged with its owner.

use crate::color::Color;
use crate::entity::{Bounds, Rect, Speed};
use vstd::prelude::*;
use vstd::std_specs::cmp::PartialEqSpecImpl;

verus! {

/// Side length of a shot, in sub-units.
pub const SHOT_SIZE: i64 = 15_000;

/// Bounces a shot survives.
pub const SHOT_LIVES: u32 = 5;

/// Identity of a shot: a sequence number and the name of the owner. Two
/// owners may use the same number without their shots being confused.
#[derive(Debug, Hash)]
pub struct Id {
    pub id: u32,
    pub owner: String,
}

impl Id {
    /// The identity as a plain value.
    pub open spec fn key(&self) -> (u32, Seq<char>) {
        (self.id, self.owner@)
    }
}

impl PartialEq for Id {
    fn eq(&self, other: &Self) -> (r: bool) {
        self.id == other.id && self.owner == other.owner
    }
}

impl Eq for Id {

}

impl PartialEqSpecImpl for Id {
    open spec fn obeys_eq_spec() -> bool {
        true
    }

    open spec fn eq_spec(&self, other: &Self) -> bool {
        self.id == other.id && self.owner@ == other.owner@
    }
}

impl Clone for Id {
    fn clone(&self) -> (r: Self)
        ensures
            r == *self,
    {
        Id { id: self.id, owner: self.owner.clone() }
    }
}

/// The replicated part of a shot.
#[derive(Debug)]
pub struct State {
    pub id: Id,
    pub x: i64,
    pub y: i64,
    pub dx: i64,
    pub dy: i64,
    pub lives: u32,
}

impl Clone for State {
    fn clone(&self) -> (r: Self)
        ensures
            r == *self,
    {
        State {
            id: self.id.clone(),
            x: self.x,
            y: self.y,
            dx: self.dx,
            dy: self.dy,
            lives: self.lives,
        }
    }
}

/// A shot of the simulation. Size, color and `dirty` are local to a
/// process; the color is that of the owner.
#[derive(Debug)]
pub struct Shot {
    pub state: State,
    pub w: i64,
    pub h: i64,
    pub color: Color,
    /// The state changed since it was last broadcast.
    pub dirty: bool,
}

impl Clone for Shot {
    fn clone(&self) -> (r: Self)
        ensures
            r == *self,
    {
        Shot { state: self.state.clone(), w: self.w, h: self.h, color: self.color,
            dirty: self.dirty }
    }
}

/// The shot that `Shot::from_state` creates.
pub open spec fn shot_of(state: State, color: Color) -> Shot {
    Shot { state, w: SHOT_SIZE, h: SHOT_SIZE, color, dirty: true }
}

impl Shot {
    /// A shot at `(x, y)` with velocity `(dx, dy)`, full lives and the
    /// identity `(id, owner)`, marked dirty.
    pub fn new(x: i64, y: i64, dx: i64, dy: i64, id: u32, owner: String, color: Color) -> (s: Self)
        ensures
            s == shot_of(
                State { id: Id { id, owner }, x, y, dx, dy, lives: SHOT_LIVES },
                color,
            ),
    {
        let id = Id { id, owner };
        Self::from_state(State { id, x, y, dx, dy, lives: SHOT_LIVES }, color)
    }

    /// A shot with the given replicated state and color, marked dirty.
    pub fn from_state(state: State, color: Color) -> (s: Self)
        ensures
            s == shot_of(state, color),
    {
        Self { state, w: SHOT_SIZE, h: SHOT_SIZE, color, dirty: true }
    }
}

impl Bounds for Shot {
    open spec fn rect(&self) -> Rect {
        Rect { x: self.state.x as int, y: self.state.y as int, w: self.w as int, h: self.h as int }
    }

    fn x(&self) -> (r: i64) {
        self.state.x
    }

    fn y(&self) -> (r: i64) {
        self.state.y
    }

    fn w(&self) -> (r: i64) {
        self.w
    }

    fn h(&self) -> (r: i64) {
        self.h
    }
}

impl Speed for Shot {
    open spec fn velocity(&self) -> (int, int) {
        (self.state.dx as int, self.state.dy as int)
    }

    fn dx(&self) -> (r: i64) {
        self.state.dx
    }

    fn dy(&self) -> (r: i64) {
        self.state.dy
    }
}

} // verus!

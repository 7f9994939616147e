//! Players: replicated state, input state and the flags of the simulation.

use crate::color::Color;
use crate::entity::{Bounds, Rect, Speed};
use vstd::prelude::*;

verus! {

/// Side length of a player, in sub-units.
pub const PLAYER_SIZE: i64 = 20_000;

/// Lives of a player at the start of a round.
pub const FULL_LIVES: u8 = 20;

/// The replicated part of a player. The name identifies the player, in the
/// simulation and on the network.
#[derive(Debug)]
pub struct State {
    pub name: String,
    pub x: i64,
    pub y: i64,
    pub width: i64,
    pub height: i64,
    pub color: Color,
    pub dx: i64,
    pub dy: i64,
    pub lives: u8,
}

impl Clone for State {
    fn clone(&self) -> (r: Self)
        ensures
            r == *self,
    {
        State {
            name: self.name.clone(),
            x: self.x,
            y: self.y,
            width: self.width,
            height: self.height,
            color: self.color,
            dx: self.dx,
            dy: self.dy,
            lives: self.lives,
        }
    }
}

/// What a player is asking for: held keys, the two one-shot triggers and
/// the cursor position in sub-units.
#[derive(Debug, Clone, Copy, PartialEq, Eq, Structural)]
pub struct Inputs {
    pub left: bool,
    pub right: bool,
    pub jump: bool,
    pub shoot: bool,
    pub mouse_x: i64,
    pub mouse_y: i64,
}

/// No key held and the cursor at the origin.
pub open spec fn idle() -> Inputs {
    Inputs { left: false, right: false, jump: false, shoot: false, mouse_x: 0, mouse_y: 0 }
}

impl Default for Inputs {
    fn default() -> (r: Self)
        ensures
            r == idle(),
    {
        Inputs { left: false, right: false, jump: false, shoot: false, mouse_x: 0, mouse_y: 0 }
    }
}

/// A player of the simulation. `on_ground`, `has_double_jump` and `dirty`
/// are local to a process and never sent.
#[derive(Debug)]
pub struct Player {
    pub state: State,
    pub inputs: Inputs,
    pub on_ground: bool,
    pub has_double_jump: bool,
    /// The state changed since it was last broadcast.
    pub dirty: bool,
}

/// The player that `Player::new` creates.
pub open spec fn fresh_player(name: String, x: i64, y: i64, color: Color) -> Player {
    Player {
        state: State {
            name,
            x,
            y,
            width: PLAYER_SIZE,
            height: PLAYER_SIZE,
            color,
            dx: 0,
            dy: 0,
            lives: FULL_LIVES,
        },
        inputs: idle(),
        on_ground: false,
        has_double_jump: true,
        dirty: true,
    }
}

impl Player {
    /// A player at rest at `(x, y)` with full lives, in the air, with its
    /// double jump available and marked dirty.
    pub fn new(name: String, x: i64, y: i64, color: Color) -> (p: Self)
        ensures
            p == fresh_player(name, x, y, color),
    {
        Self {
            state: State {
                name,
                x,
                y,
                width: PLAYER_SIZE,
                height: PLAYER_SIZE,
                color,
                dx: 0,
                dy: 0,
                lives: FULL_LIVES,
            },
            inputs: Inputs::default(),
            on_ground: false,
            has_double_jump: true,
            dirty: true,
        }
    }

    /// The four coordinates of the player: x, y, width, height.
    pub fn bounds(&self) -> (r: [i64; 4])
        ensures
            r@ == seq![self.state.x, self.state.y, self.state.width, self.state.height],
    {
        [self.state.x, self.state.y, self.state.width, self.state.height]
    }
}

impl Bounds for Player {
    open spec fn rect(&self) -> Rect {
        Rect {
            x: self.state.x as int,
            y: self.state.y as int,
            w: self.state.width as int,
            h: self.state.height as int,
        }
    }

    fn x(&self) -> (r: i64) {
        self.state.x
    }

    fn y(&self) -> (r: i64) {
        self.state.y
    }

    fn w(&self) -> (r: i64) {
        self.state.width
    }

    fn h(&self) -> (r: i64) {
        self.state.height
    }
}

impl Speed for Player {
    open spec fn velocity(&self) -> (int, int) {
        (self.state.dx as int, self.state.dy as int)
    }

    fn dx(&self) -> (r: i64) {
        self.state.dx
    }

    fn dy(&self) -> (r: i64) {
        self.state.dy
    }
}

} // verus!

//! Turns the input events of the local player into its input state.

use crate::input::{Button, ButtonState, Event, Key, MouseButton};
use crate::player::{Inputs, Player};
use crate::player_controller::{
    has_name, is_first_named, lemma_same_names_distinct, names_of, PlayerController,
};
use vstd::prelude::*;

verus! {

/// The name of the player that this process controls, and whether the
/// jump key is held, which makes a jump a matter of pressing the key anew.
#[derive(Debug)]
pub struct LocalInputController {
    pub local_player: String,
    pub space: bool,
}

/// Whether the jump key is held after the event `e`.
pub open spec fn space_after(e: Event, space: bool) -> bool {
    match e {
        Event::Button { button: Button::Keyboard(Key::Space), state } => state
            == ButtonState::Press,
        _ => space,
    }
}

/// The player after the event `e`, where `space` tells whether the jump
/// key was held before it. Pressing the jump key while it is up sets the
/// jump trigger and releasing it clears the trigger; the keys `A` and `D`
/// and the left mouse button set left, right and shoot while they are
/// down; the cursor position follows the mouse. The player is marked
/// dirty when a value changes, when the jump key acts, and when the
/// cursor moves while shoot is set.
pub open spec fn applied(p: Player, e: Event, space: bool) -> Player {
    match e {
        Event::Button { button: Button::Keyboard(Key::Space), state } => {
            if state != ButtonState::Press {
                Player { inputs: Inputs { jump: false, ..p.inputs }, dirty: true, ..p }
            } else if !space {
                Player { inputs: Inputs { jump: true, ..p.inputs }, dirty: true, ..p }
            } else {
                p
            }
        },
        Event::Button { button: Button::Keyboard(Key::A), state } => {
            let down = state == ButtonState::Press;
            Player {
                inputs: Inputs { left: down, ..p.inputs },
                dirty: p.dirty || p.inputs.left != down,
                ..p
            }
        },
        Event::Button { button: Button::Keyboard(Key::D), state } => {
            let down = state == ButtonState::Press;
            Player {
                inputs: Inputs { right: down, ..p.inputs },
                dirty: p.dirty || p.inputs.right != down,
                ..p
            }
        },
        Event::Button { button: Button::Mouse(MouseButton::Left), state } => {
            let down = state == ButtonState::Press;
            Player {
                inputs: Inputs { shoot: down, ..p.inputs },
                dirty: p.dirty || p.inputs.shoot != down,
                ..p
            }
        },
        Event::MouseCursor { x, y } => Player {
            inputs: Inputs { mouse_x: x, mouse_y: y, ..p.inputs },
            dirty: p.dirty || p.inputs.shoot,
            ..p
        },
        _ => p,
    }
}

impl LocalInputController {
    /// A controller for the player called `local_player`, with the jump
    /// key up.
    pub fn new(local_player: String) -> (r: Self)
        ensures
            r.local_player == local_player,
            !r.space,
    {
        Self { local_player, space: false }
    }

    /// Applies the event `e` to the local player, if the game has a
    /// player of that name, and to nothing else.
    pub fn event(&mut self, e: &Event, player_controller: &mut PlayerController)
        ensures
            final(self).local_player == old(self).local_player,
            final(player_controller).players.len() == old(player_controller).players.len(),
            old(player_controller).wf() ==> final(player_controller).wf(),
            ({
                let players = old(player_controller).players@;
                let name = old(self).local_player@;
                if has_name(players, name) {
                    &&& final(self).space == space_after(*e, old(self).space)
                    &&& exists|i: int|
                        is_first_named(players, name, i) && final(player_controller).players@
                            == players.update(i, applied(players[i], *e, old(self).space))
                } else {
                    &&& *final(self) == *old(self)
                    &&& final(player_controller).players@ == players
                }
            }),
    {
        let i = match player_controller.find(&self.local_player) {
            Some(i) => i,
            None => {
                return ;
            },
        };
        let ghost before = player_controller.players@;
        let player = &mut player_controller.players[i];

        match e {
            Event::Button { button, state } => {
                let down = match state {
                    ButtonState::Press => true,
                    ButtonState::Release => false,
                };
                match button {
                    Button::Keyboard(Key::Space) => {
                        if !down {
                            player.dirty = true;
                            player.inputs.jump = false;
                        } else if !self.space {
                            player.dirty = true;
                            player.inputs.jump = true;
                        }
                        self.space = down;
                    },
                    Button::Keyboard(Key::A) => {
                        if player.inputs.left != down {
                            player.dirty = true;
                        }
                        player.inputs.left = down;
                    },
                    Button::Keyboard(Key::D) => {
                        if player.inputs.right != down {
                            player.dirty = true;
                        }
                        player.inputs.right = down;
                    },
                    Button::Mouse(MouseButton::Left) => {
                        if player.inputs.shoot != down {
                            player.dirty = true;
                        }
                        player.inputs.shoot = down;
                    },
                    _ => {},
                }
            },
            Event::MouseCursor { x, y } => {
                player.inputs.mouse_x = *x;
                player.inputs.mouse_y = *y;
                if player.inputs.shoot {
                    player.dirty = true;
                }
            },
            _ => {},
        }
        proof {
            assert(player_controller.players@ == before.update(
                i as int,
                applied(before[i as int], *e, old(self).space),
            ));
            if old(player_controller).wf() {
                assert(names_of(player_controller.players@) =~= names_of(before));
                lemma_same_names_distinct(before, player_controller.players@);
            }
        }
    }
}

} // verus!

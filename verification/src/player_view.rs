//! What there is to draw of the players.

use crate::color::Color;
use crate::player::Player;
use crate::player_controller::PlayerController;
use vstd::prelude::*;

verus! {

/// Opacity of the body of a player per life, in thousandths: a player
/// with full lives is opaque.
pub const OPACITY_PER_LIFE: u16 = 50;

/// The view of the players.
#[derive(Debug)]
pub struct PlayerView {}

/// A player as it is drawn: a rectangle in world sub-units, the color of
/// its outline, and the color of its body, which fades with its lives.
#[derive(Debug, Clone, Copy, PartialEq, Eq, Structural)]
pub struct PlayerSprite {
    pub x: i64,
    pub y: i64,
    pub w: i64,
    pub h: i64,
    pub outline: Color,
    pub body: Color,
}

/// The player is drawn: it has lives left.
pub open spec fn visible(p: Player) -> bool {
    p.state.lives > 0
}

/// How the player `p` is drawn.
pub open spec fn sprite_of(p: Player) -> PlayerSprite {
    PlayerSprite {
        x: p.state.x,
        y: p.state.y,
        w: p.state.width,
        h: p.state.height,
        outline: p.state.color,
        body: Color { a: (p.state.lives * OPACITY_PER_LIFE) as u16, ..p.state.color },
    }
}

impl Default for PlayerView {
    fn default() -> (r: Self) {
        Self {  }
    }
}

impl PlayerView {
    pub fn new() -> (r: Self) {
        Self {  }
    }

    /// The players that have lives left, in order, as they are drawn.
    pub fn sprites(&self, controller: &PlayerController) -> (r: Vec<PlayerSprite>)
        ensures
            r@ == controller.players@.filter(|p: Player| visible(p)).map_values(
                |p: Player| sprite_of(p),
            ),
    {
        let ghost players = controller.players@;
        let ghost shown = |p: Player| visible(p);
        let ghost draw = |p: Player| sprite_of(p);
        let mut r: Vec<PlayerSprite> = Vec::new();
        let mut i: usize = 0;
        while i < controller.players.len()
            invariant
                i <= controller.players.len(),
                players == controller.players@,
                shown == |p: Player| visible(p),
                draw == |p: Player| sprite_of(p),
                r@ == players.take(i as int).filter(shown).map_values(draw),
            decreases controller.players.len() - i,
        {
            proof {
                let before = players.take(i as int);
                let after = players.take(i + 1);
                assert(after.drop_last() == before);
                assert(after.last() == players[i as int]);
                reveal_with_fuel(Seq::filter, 2);
                if shown(players[i as int]) {
                    assert(after.filter(shown) == before.filter(shown).push(players[i as int]));
                    assert(after.filter(shown).map_values(draw) == before.filter(shown).map_values(
                        draw,
                    ).push(draw(players[i as int])));
                } else {
                    assert(after.filter(shown) == before.filter(shown));
                }
            }
            let state = &controller.players[i].state;
            if state.lives != 0 {
                let color = state.color;
                let body = Color {
                    r: color.r,
                    g: color.g,
                    b: color.b,
                    a: state.lives as u16 * OPACITY_PER_LIFE,
                };
                r.push(
                    PlayerSprite {
                        x: state.x,
                        y: state.y,
                        w: state.width,
                        h: state.height,
                        outline: color,
                        body,
                    },
                );
            }
            i += 1;
        }
        assert(players.take(i as int) == players);
        r
    }
}

} // verus!

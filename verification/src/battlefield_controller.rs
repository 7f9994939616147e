//! The battlefield, a backdrop that turns at a steady rate.

use crate::input::Event;
use crate::units::{advance, moved};
use vstd::prelude::*;

verus! {

/// Rate at which the battlefield turns: half a turn per second, in
/// millionths of a radian per second.
pub const TURN_RATE: i64 = 3_141_593;

/// The battlefield: its rotation, in millionths of a radian.
#[derive(Debug, Clone, Copy, PartialEq, Eq, Structural)]
pub struct Battlefield {
    pub rotation: i64,
}

/// Turns the battlefield with the clock.
#[derive(Debug)]
pub struct BattlefieldController {
    pub battlefield: Battlefield,
}

impl BattlefieldController {
    pub fn new(battlefield: Battlefield) -> (r: BattlefieldController)
        ensures
            r.battlefield == battlefield,
    {
        BattlefieldController { battlefield }
    }

    /// On a tick of `dt` microseconds the battlefield turns by
    /// `TURN_RATE` times `dt`; any other event leaves it alone.
    pub fn event(&mut self, e: &Event)
        ensures
            final(self).battlefield.rotation == match *e {
                Event::Update { dt } => moved(
                    old(self).battlefield.rotation as int,
                    TURN_RATE as int,
                    dt as int,
                ) as i64,
                _ => old(self).battlefield.rotation,
            },
    {
        if let Event::Update { dt } = e {
            self.battlefield.rotation = advance(self.battlefield.rotation, TURN_RATE, *dt);
        }
    }
}

} // verus!

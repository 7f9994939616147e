//! Holds the map of the current round.

use crate::input::Event;
use crate::map::TileMap;
use vstd::prelude::*;

verus! {

/// The map of the current round.
#[derive(Debug)]
pub struct MapController {
    pub map: TileMap,
}

impl MapController {
    pub fn new(map: TileMap) -> (r: Self)
        ensures
            r.map == map,
    {
        Self { map }
    }

    /// Replaces the map by a freshly generated one when the round is
    /// restarted by hand; any other event leaves it alone.
    pub fn event(&mut self, e: &Event)
        ensures
            e.is_restart() ==> final(self).map.generated(),
            !e.is_restart() ==> *final(self) == *old(self),
    {
        if e.restarts() {
            self.map = TileMap::new();
        }
    }
}

} // verus!

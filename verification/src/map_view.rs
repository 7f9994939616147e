//! What there is to draw of the map.

use crate::cell::Cell;
use crate::map_controller::MapController;
use crate::player_controller::tiles;
use vstd::prelude::*;

verus! {

/// Settings of the view of the map.
#[derive(Debug)]
pub struct MapViewSettings {}

impl Default for MapViewSettings {
    fn default() -> (r: Self) {
        Self {  }
    }
}

impl MapViewSettings {
    pub fn new() -> (r: Self) {
        Self {  }
    }
}

/// The view of the map.
#[derive(Debug)]
pub struct MapView {
    pub settings: MapViewSettings,
}

impl MapView {
    pub fn new(settings: MapViewSettings) -> (r: Self)
        ensures
            r.settings == settings,
    {
        Self { settings }
    }

    /// The solid tiles of the map, column by column, as rectangles in
    /// world sub-units.
    pub fn tiles(&self, controller: &MapController) -> (r: Vec<Cell>)
        requires
            controller.map.wf(),
        ensures
            r@ == tiles(controller.map),
    {
        controller.map.all_cells()
    }
}

} // verus!

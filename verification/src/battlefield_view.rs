//! The view of the battlefield, the backdrop of the game.

use vstd::prelude::*;

verus! {

/// Settings of the view of the battlefield.
#[derive(Debug)]
pub struct BattlefieldViewSettings {}

impl BattlefieldViewSettings {
    pub fn new() -> (r: BattlefieldViewSettings) {
        BattlefieldViewSettings {  }
    }
}

/// The view of the battlefield.
#[derive(Debug)]
pub struct BattlefieldView {
    pub settings: BattlefieldViewSettings,
}

impl BattlefieldView {
    pub fn new(settings: BattlefieldViewSettings) -> (r: BattlefieldView)
        ensures
            r.settings == settings,
    {
        BattlefieldView { settings }
    }
}

} // verus!

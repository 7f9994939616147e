//! The messages of the protocol.

use crate::map::TileMap;
use crate::player::Inputs;
use vstd::prelude::*;

verus! {

/// What a client tells the host.
#[derive(Debug)]
pub enum ServerBoundMessage {
    /// Asks to join under a name.
    SetName(String),
    /// The input state of the sender's player.
    UpdateInputs(Inputs),
    /// The transport saw a new peer.
    Connect,
    /// The transport lost a peer.
    Disconnect,
}

/// What the host tells its clients.
#[derive(Debug)]
pub enum ClientBoundMessage {
    /// Answers a request to join.
    SetNameResponse { accepted: bool },
    /// The map of the round that begins.
    SetMap(TileMap),
    /// State and inputs of one player.
    PlayerUpdate(crate::player::State, Inputs),
    /// State of one shot.
    ShotUpdate(crate::shot::State),
}

impl ClientBoundMessage {
    /// The two messages say the same: they are equal, or they carry maps
    /// of the same size with the same solid tiles.
    pub open spec fn alike(&self, other: &Self) -> bool {
        match (*self, *other) {
            (ClientBoundMessage::SetMap(a), ClientBoundMessage::SetMap(b)) => a.alike(&b),
            _ => *self == *other,
        }
    }
}

impl Clone for ClientBoundMessage {
    fn clone(&self) -> (r: Self)
        ensures
            r.alike(self),
            self.alike(&r),
    {
        match self {
            ClientBoundMessage::SetNameResponse { accepted } => ClientBoundMessage::SetNameResponse {
                accepted: *accepted,
            },
            ClientBoundMessage::SetMap(map) => ClientBoundMessage::SetMap(map.clone()),
            ClientBoundMessage::PlayerUpdate(state, inputs) => ClientBoundMessage::PlayerUpdate(
                state.clone(),
                *inputs,
            ),
            ClientBoundMessage::ShotUpdate(state) => ClientBoundMessage::ShotUpdate(state.clone()),
        }
    }
}

} // verus!

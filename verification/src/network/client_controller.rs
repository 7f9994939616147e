//! What a client decides on each tick: it applies what the host told it
//! to its copy of the game, and tells the host the inputs of its own
//! player when they changed.

use crate::color::{white, Color};
use crate::input::Event;
use crate::local_input_controller::LocalInputController;
use crate::map::TileMap;
use crate::map_controller::MapController;
use crate::network::messages::{ClientBoundMessage, ServerBoundMessage};
use crate::network::packet::{Delivery, Peer, Upload};
use crate::player::{Inputs, Player};
use crate::player_controller::{
    has_name, is_first_named, lemma_first_named_is, lemma_placed_distinct,
    lemma_same_names_distinct, names_of, PlayerController,
};
use crate::shot::{shot_of, Shot};
use crate::shot_controller::{
    has_id, is_first_with_id, lemma_first_with_id_is, lemma_upserted_distinct, ShotController,
};
use vstd::prelude::*;

verus! {

/// A message as it reached the client.
#[derive(Debug)]
pub struct ClientBound {
    pub message: ClientBoundMessage,
}

/// Why a client gives up.
#[derive(Debug, Clone, Copy, PartialEq, Eq, Structural)]
pub enum ClientError {
    /// The host has a player of the name that was asked for.
    NameTaken,
}

impl ClientError {
    /// The error in words.
    pub fn message(&self) -> (r: String)
        ensures
            r@ == "name already taken"@,
    {
        "name already taken".to_owned()
    }
}

/// The socket of the host.
#[derive(Debug)]
pub struct ClientController {
    pub host: Peer,
}

/// The copy of the game that a client keeps.
pub ghost struct Scene {
    pub players: Seq<Player>,
    pub shots: Seq<Shot>,
    pub map: TileMap,
}

/// The player called `name` is the one that this process controls.
pub open spec fn is_local(local: Option<LocalInputController>, name: Seq<char>) -> bool {
    match local {
        Some(l) => l.local_player@ == name,
        None => false,
    }
}

/// The player holds no direction and no jump, and stands on the ground.
pub open spec fn standing_still(p: Player) -> bool {
    !p.inputs.left && !p.inputs.right && !p.inputs.jump && p.on_ground
}

/// A player seen for the first time: in the air, with its double jump,
/// marked dirty.
pub open spec fn sighted(state: crate::player::State, inputs: Inputs) -> Player {
    Player { state, inputs, on_ground: false, has_double_jump: true, dirty: true }
}

/// A known player after an update from the host. Another player takes
/// state and inputs from the host. The local player keeps its inputs,
/// and takes the state only while it stands still, so that the host does
/// not override motion that is under way.
pub open spec fn synced(
    p: Player,
    state: crate::player::State,
    inputs: Inputs,
    local: bool,
) -> Player {
    if !local {
        Player { state, inputs, ..p }
    } else if standing_still(p) {
        Player { state, ..p }
    } else {
        p
    }
}

/// The color of the first player called `owner`, or white if there is
/// none.
pub open spec fn owner_color(players: Seq<Player>, owner: Seq<char>) -> Color {
    if has_name(players, owner) {
        players[choose|i: int| is_first_named(players, owner, i)].state.color
    } else {
        white()
    }
}

/// The message turns down a request to join.
pub open spec fn rejected(message: ClientBoundMessage) -> bool {
    message == (ClientBoundMessage::SetNameResponse { accepted: false })
}

/// The copy of the game after one message from the host. A map replaces
/// the local one, unless its grid does not have the announced shape. A
/// player update creates the player or brings it up to date. A shot
/// update creates the shot, in the color of its owner, or replaces its
/// state.
pub open spec fn applied(
    scene: Scene,
    local: Option<LocalInputController>,
    message: ClientBoundMessage,
) -> Scene {
    match message {
        ClientBoundMessage::SetNameResponse { accepted } => scene,
        ClientBoundMessage::SetMap(map) => if map.wf() {
            Scene { map, ..scene }
        } else {
            scene
        },
        ClientBoundMessage::PlayerUpdate(state, inputs) => {
            if has_name(scene.players, state.name@) {
                let i = choose|i: int| is_first_named(scene.players, state.name@, i);
                Scene {
                    players: scene.players.update(
                        i,
                        synced(scene.players[i], state, inputs, is_local(local, state.name@)),
                    ),
                    ..scene
                }
            } else {
                Scene { players: scene.players.push(sighted(state, inputs)), ..scene }
            }
        },
        ClientBoundMessage::ShotUpdate(state) => {
            if has_id(scene.shots, state.id.key()) {
                let i = choose|i: int| is_first_with_id(scene.shots, state.id.key(), i);
                Scene { shots: scene.shots.update(i, Shot { state, ..scene.shots[i] }), ..scene }
            } else {
                Scene {
                    shots: scene.shots.push(
                        shot_of(state, owner_color(scene.players, state.id.owner@)),
                    ),
                    ..scene
                }
            }
        },
    }
}

/// Some message of the inbox turns down a request to join.
pub open spec fn refused(inbox: Seq<ClientBound>) -> bool {
    exists|i: int| 0 <= i < inbox.len() && rejected((#[trigger] inbox[i]).message)
}

/// The copy of the game after the messages of `inbox`, applied in order
/// up to the first that turns down a request to join.
pub open spec fn absorbed(
    scene: Scene,
    local: Option<LocalInputController>,
    inbox: Seq<ClientBound>,
) -> Scene
    decreases inbox.len(),
{
    if inbox.len() == 0 || rejected(inbox[0].message) {
        scene
    } else {
        absorbed(applied(scene, local, inbox[0].message), local, inbox.skip(1))
    }
}

/// The local player has inputs to report: the process controls a player,
/// the game has it, and it is dirty.
pub open spec fn reports(players: Seq<Player>, local: Option<LocalInputController>) -> bool {
    match local {
        Some(l) => has_name(players, l.local_player@) && players[choose|i: int|
            is_first_named(players, l.local_player@, i)].dirty,
        None => false,
    }
}

/// The players with the dirty flag of the local player cleared.
pub open spec fn reported(
    players: Seq<Player>,
    local: Option<LocalInputController>,
) -> Seq<Player> {
    if reports(players, local) {
        let i = choose|i: int| is_first_named(players, local.unwrap().local_player@, i);
        players.update(i, Player { dirty: false, ..players[i] })
    } else {
        players
    }
}

impl ClientController {
    /// A client of the host at `host`.
    pub fn new(host: Peer) -> (r: Self)
        ensures
            r.host == host,
    {
        Self { host }
    }

    /// The inbox entry for a message that arrived from `source`. Messages
    /// that do not come from the host are dropped.
    pub fn receive(&self, source: Peer, message: ClientBoundMessage) -> (r: Option<ClientBound>)
        ensures
            r.is_some() <==> source == self.host,
            r.is_some() ==> r.unwrap().message == message,
    {
        if source == self.host {
            Some(ClientBound { message })
        } else {
            None
        }
    }

    /// The request to join the game of `host` as `name`, sent reliably.
    pub fn set_name(host: &Peer, name: String) -> (r: Upload)
        ensures
            r.target == *host,
            r.delivery == Delivery::Reliable,
            r.message == ServerBoundMessage::SetName(name),
    {
        Upload {
            target: *host,
            delivery: Delivery::Reliable,
            message: ServerBoundMessage::SetName(name),
        }
    }

    /// Applies one message from the host to the copy of the game. The one
    /// message that is an error is the refusal of a request to join; it
    /// changes nothing.
    pub fn process(
        packet: ClientBound,
        player_controller: &mut PlayerController,
        local_input_controller: &Option<LocalInputController>,
        shot_controller: &mut ShotController,
        map_controller: &mut MapController,
    ) -> (r: Result<(), ClientError>)
        ensures
            r.is_err() <==> rejected(packet.message),
            r.is_err() ==> r == Err::<(), ClientError>(ClientError::NameTaken),
            final(shot_controller).next_id == old(shot_controller).next_id,
            ({
                let before = Scene {
                    players: old(player_controller).players@,
                    shots: old(shot_controller).shots@,
                    map: old(map_controller).map,
                };
                let after = Scene {
                    players: final(player_controller).players@,
                    shots: final(shot_controller).shots@,
                    map: final(map_controller).map,
                };
                after == if r.is_err() {
                    before
                } else {
                    applied(before, *local_input_controller, packet.message)
                }
            }),
            old(player_controller).wf() ==> final(player_controller).wf(),
            old(shot_controller).wf() ==> final(shot_controller).wf(),
            old(map_controller).map.wf() ==> final(map_controller).map.wf(),
    {
        match packet.message {
            ClientBoundMessage::SetNameResponse { accepted } => {
                if !accepted {
                    return Err(ClientError::NameTaken);
                }
            },
            ClientBoundMessage::SetMap(map) => {
                if map.is_wf() {
                    map_controller.map = map;
                }
            },
            ClientBoundMessage::PlayerUpdate(state, inputs) => {
                match player_controller.find(&state.name) {
                    Some(i) => {
                        proof {
                            lemma_first_named_is(player_controller.players@, state.name@, i as int);
                        }
                        let local = match local_input_controller {
                            Some(l) => player_controller.players[i].state.name == l.local_player,
                            None => false,
                        };
                        let player = &mut player_controller.players[i];
                        if !local {
                            // always sync other players
                            player.state = state;
                            player.inputs = inputs;
                        } else if !player.inputs.left && !player.inputs.right
                            && !player.inputs.jump && player.on_ground {
                            // sync local player when standing still
                            player.state = state;
                        }
                        proof {
                            if old(player_controller).wf() {
                                assert(names_of(player_controller.players@) =~= names_of(
                                    old(player_controller).players@,
                                ));
                                lemma_same_names_distinct(
                                    old(player_controller).players@,
                                    player_controller.players@,
                                );
                            }
                        }
                    },
                    None => {
                        let player = Player {
                            state,
                            inputs,
                            on_ground: false,
                            has_double_jump: true,
                            dirty: true,
                        };
                        proof {
                            if player_controller.wf() {
                                lemma_placed_distinct(player_controller.players@, player);
                            }
                        }
                        player_controller.players.push(player);
                    },
                }
            },
            ClientBoundMessage::ShotUpdate(shot_state) => {
                match shot_controller.find(&shot_state.id) {
                    Some(i) => {
                        let ghost replaced = Shot {
                            state: shot_state,
                            ..shot_controller.shots[i as int]
                        };
                        proof {
                            lemma_first_with_id_is(shot_controller.shots@, replaced, i as int);
                            if shot_controller.wf() {
                                lemma_upserted_distinct(shot_controller.shots@, replaced);
                            }
                        }
                        shot_controller.shots[i].state = shot_state;
                    },
                    None => {
                        let color = match player_controller.find(&shot_state.id.owner) {
                            Some(k) => {
                                proof {
                                    lemma_first_named_is(
                                        player_controller.players@,
                                        shot_state.id.owner@,
                                        k as int,
                                    );
                                }
                                player_controller.players[k].state.color
                            },
                            None => Color::white(),
                        };
                        let shot = Shot::from_state(shot_state, color);
                        proof {
                            if shot_controller.wf() {
                                lemma_upserted_distinct(shot_controller.shots@, shot);
                            }
                        }
                        shot_controller.shots.push(shot);
                    },
                }
            },
        }
        Ok(())
    }

    /// One tick of the client. The messages of `inbox` are applied in
    /// order; the first refusal of a request to join ends the tick with
    /// an error. Otherwise, if the local player is dirty, its flag is
    /// cleared and its inputs are returned, to be sent unreliably to the
    /// host. Any other event changes nothing.
    pub fn event(
        &mut self,
        e: &Event,
        inbox: Vec<ClientBound>,
        player_controller: &mut PlayerController,
        map_controller: &mut MapController,
        shot_controller: &mut ShotController,
        local_input_controller: &mut Option<LocalInputController>,
    ) -> (r: Result<Option<Upload>, ClientError>)
        ensures
            *final(self) == *old(self),
            *final(local_input_controller) == *old(local_input_controller),
            final(shot_controller).next_id == old(shot_controller).next_id,
            old(player_controller).wf() ==> final(player_controller).wf(),
            old(shot_controller).wf() ==> final(shot_controller).wf(),
            old(map_controller).map.wf() ==> final(map_controller).map.wf(),
            !(*e is Update) ==> {
                &&& r == Ok::<Option<Upload>, ClientError>(None)
                &&& *final(player_controller) == *old(player_controller)
                &&& *final(shot_controller) == *old(shot_controller)
                &&& *final(map_controller) == *old(map_controller)
            },
            *e is Update ==> ({
                let before = Scene {
                    players: old(player_controller).players@,
                    shots: old(shot_controller).shots@,
                    map: old(map_controller).map,
                };
                let local = *old(local_input_controller);
                let after = absorbed(before, local, inbox@);
                &&& r.is_err() <==> refused(inbox@)
                &&& r.is_err() ==> r == Err::<Option<Upload>, ClientError>(ClientError::NameTaken)
                &&& final(shot_controller).shots@ == after.shots
                &&& final(map_controller).map == after.map
                &&& r.is_err() ==> final(player_controller).players@ == after.players
                &&& r.is_ok() ==> final(player_controller).players@
                    == reported(after.players, local)
                &&& r.is_ok() ==> match r.unwrap() {
                    Some(upload) => {
                        &&& reports(after.players, local)
                        &&& upload.target == old(self).host
                        &&& upload.delivery == Delivery::Unreliable
                        &&& upload.message == ServerBoundMessage::UpdateInputs(
                            after.players[choose|i: int|
                                is_first_named(after.players, local.unwrap().local_player@,
                                    i)].inputs,
                        )
                    },
                    None => !reports(after.players, local),
                }
            }),
    {
        if let Event::Update { .. } = e {
            let ghost before = Scene {
                players: player_controller.players@,
                shots: shot_controller.shots@,
                map: map_controller.map,
            };
            let ghost local = *local_input_controller;
            let ghost letters = inbox@;
            let ghost n = letters.len();
            proof {
                assert(letters.skip(0) =~= letters);
            }
            for packet in it: inbox
                invariant
                    *e is Update,
                    before == (Scene {
                        players: old(player_controller).players@,
                        shots: old(shot_controller).shots@,
                        map: old(map_controller).map,
                    }),
                    local == *old(local_input_controller),
                    n == letters.len(),
                    it.seq() == letters,
                    *local_input_controller == local,
                    *self == *old(self),
                    shot_controller.next_id == old(shot_controller).next_id,
                    forall|j: int| 0 <= j < it.index()
                        ==> !rejected((#[trigger] letters[j]).message),
                    absorbed(
                        Scene {
                            players: player_controller.players@,
                            shots: shot_controller.shots@,
                            map: map_controller.map,
                        },
                        local,
                        letters.skip(it.index() as int),
                    ) == absorbed(before, local, letters),
                    old(player_controller).wf() ==> player_controller.wf(),
                    old(shot_controller).wf() ==> shot_controller.wf(),
                    old(map_controller).map.wf() ==> map_controller.map.wf(),
            {
                let ghost at = it.index() as int;
                let ghost tail = letters.skip(at);
                proof {
                    assert(packet == tail[0]);
                    assert(tail.skip(1) =~= letters.skip(at + 1));
                }
                match Self::process(
                    packet,
                    player_controller,
                    local_input_controller,
                    shot_controller,
                    map_controller,
                ) {
                    Ok(()) => {},
                    Err(err) => {
                        proof {
                            assert(rejected(letters[at].message));
                            assert(rejected(tail[0].message));
                            assert(refused(letters));
                        }
                        return Err(err);
                    },
                }
            }
            proof {
                assert(letters.skip(n as int).len() == 0);
                assert(!refused(letters));
            }

            let found = match local_input_controller {
                Some(l) => player_controller.find(&l.local_player),
                None => None,
            };
            if let Some(i) = found {
                proof {
                    lemma_first_named_is(
                        player_controller.players@,
                        local.unwrap().local_player@,
                        i as int,
                    );
                }
                if player_controller.players[i].dirty {
                    let ghost known = player_controller.players@;
                    player_controller.players[i].dirty = false;
                    let msg = ServerBoundMessage::UpdateInputs(player_controller.players[i].inputs);
                    proof {
                        if old(player_controller).wf() {
                            assert(names_of(player_controller.players@) =~= names_of(known));
                            lemma_same_names_distinct(known, player_controller.players@);
                        }
                    }
                    return Ok(
                        Some(Upload { target: self.host, delivery: Delivery::Unreliable,
                            message: msg }),
                    );
                }
            }
        }
        Ok(None)
    }
}

} // verus!

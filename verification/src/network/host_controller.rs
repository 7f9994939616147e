//! What the host decides on each tick: it answers requests to join,
//! applies the inputs of its clients, starts a new round when one is
//! over, and tells everyone what changed.

use crate::input::Event;
use crate::map::TileMap;
use crate::map_controller::MapController;
use crate::network::messages::{ClientBoundMessage, ServerBoundMessage};
use crate::network::packet::{
    carries, is_dispatch, lemma_carries_both, Delivery, Dispatch, Outgoing, Peer,
};
use crate::player::{fresh_player, Inputs, Player, State, FULL_LIVES};
use crate::player_controller::{
    free_color, has_name, is_first_named, lemma_first_named_exists, lemma_first_named_is,
    lemma_placed_distinct, PlayerController,
};
use crate::shot::Shot;
use crate::shot_controller::ShotController;
use vstd::prelude::*;

verus! {

/// Where a player that joins is put, in sub-units from the left.
pub const SPAWN_X: i64 = 100_000;

/// Where a player that joins is put, in sub-units from the top.
pub const SPAWN_Y: i64 = 100_000;

/// A message as it reached the host: where it came from, and the name of
/// the player that was registered for that socket when it arrived.
#[derive(Debug)]
pub struct ServerBound {
    pub message: ServerBoundMessage,
    pub player_name: Option<String>,
    pub source: Peer,
}

/// A socket and the name of the player that joined from it.
#[derive(Debug)]
pub struct Client {
    pub addr: Peer,
    pub name: String,
}

/// The sockets of the clients that joined, each with the name of its
/// player; no socket more than once.
#[derive(Debug)]
pub struct HostController {
    pub players: Vec<Client>,
}

/// No two clients of the sequence share a socket.
pub open spec fn distinct_addrs(registry: Seq<Client>) -> bool {
    forall|i: int, j: int|
        0 <= i < j < registry.len() ==> (#[trigger] registry[i]).addr
            != (#[trigger] registry[j]).addr
}

/// The sockets of the clients, in order.
pub open spec fn sockets_of(registry: Seq<Client>) -> Seq<Peer> {
    registry.map_values(|c: Client| c.addr)
}

/// Some client of the sequence has the socket `addr`.
pub open spec fn has_addr(registry: Seq<Client>, addr: Peer) -> bool {
    exists|i: int| 0 <= i < registry.len() && (#[trigger] registry[i]).addr == addr
}

/// `i` is the first client of the sequence with the socket `addr`.
pub open spec fn is_first_at(registry: Seq<Client>, addr: Peer, i: int) -> bool {
    &&& 0 <= i < registry.len()
    &&& registry[i].addr == addr
    &&& forall|j: int| 0 <= j < i ==> (#[trigger] registry[j]).addr != addr
}

/// The sequence with `c` under its socket: in the place of the first
/// client of that socket if there is one, else behind the others.
pub open spec fn enrolled(registry: Seq<Client>, c: Client) -> Seq<Client> {
    if has_addr(registry, c.addr) {
        registry.update(choose|i: int| is_first_at(registry, c.addr, i), c)
    } else {
        registry.push(c)
    }
}

/// The message that tells the state and the inputs of `p`.
pub open spec fn update_of(p: Player) -> ClientBoundMessage {
    ClientBoundMessage::PlayerUpdate(p.state, p.inputs)
}

/// The message that tells the state of `s`.
pub open spec fn shot_update_of(s: Shot) -> ClientBoundMessage {
    ClientBoundMessage::ShotUpdate(s.state)
}

/// `message`, sent reliably to `target` alone.
pub open spec fn to_one(target: Peer, message: ClientBoundMessage) -> Dispatch {
    Dispatch { targets: seq![target], delivery: Delivery::Reliable, message }
}

/// `message`, sent to every one of `targets`.
pub open spec fn to_all(
    targets: Seq<Peer>,
    delivery: Delivery,
    message: ClientBoundMessage,
) -> Dispatch {
    Dispatch { targets, delivery, message }
}

/// The player with new inputs, marked dirty.
pub open spec fn commanded(p: Player, inputs: Inputs) -> Player {
    Player { inputs, dirty: true, ..p }
}

/// The sockets and the players of a game.
pub ghost struct Lobby {
    pub registry: Seq<Client>,
    pub players: Seq<Player>,
}

/// The request to join as `name` is accepted: no player has that name.
pub open spec fn accepts(lobby: Lobby, name: String) -> bool {
    !has_name(lobby.players, name@)
}

/// The lobby after one message. An accepted request to join creates the
/// player, in the first free color, and registers the socket, as long as
/// a color is free. Inputs go to the player named in the packet, if the
/// game has it, and mark it dirty. Nothing else changes the lobby.
pub open spec fn processed(lobby: Lobby, packet: ServerBound) -> Lobby {
    match packet.message {
        ServerBoundMessage::SetName(name) => {
            if accepts(lobby, name) && free_color(lobby.players).is_some() {
                Lobby {
                    registry: enrolled(lobby.registry, Client { addr: packet.source, name }),
                    players: lobby.players.push(
                        fresh_player(name, SPAWN_X, SPAWN_Y, free_color(lobby.players).unwrap()),
                    ),
                }
            } else {
                lobby
            }
        },
        ServerBoundMessage::UpdateInputs(inputs) => {
            match packet.player_name {
                Some(name) => {
                    if has_name(lobby.players, name@) {
                        let i = choose|i: int| is_first_named(lobby.players, name@, i);
                        Lobby {
                            players: lobby.players.update(i, commanded(lobby.players[i], inputs)),
                            ..lobby
                        }
                    } else {
                        lobby
                    }
                },
                None => lobby,
            }
        },
        _ => lobby,
    }
}

/// What the host sends in answer to one message. A request to join is
/// answered to its sender, and a player that was created is announced
/// reliably to every registered socket, the new one included. A new peer
/// is sent the map and every player. Nothing else is answered.
pub open spec fn issued(lobby: Lobby, map: TileMap, packet: ServerBound) -> Seq<Dispatch> {
    match packet.message {
        ServerBoundMessage::SetName(name) => {
            let answer = to_one(
                packet.source,
                ClientBoundMessage::SetNameResponse { accepted: accepts(lobby, name) },
            );
            if accepts(lobby, name) && free_color(lobby.players).is_some() {
                let after = processed(lobby, packet);
                seq![
                    answer,
                    to_all(
                        sockets_of(after.registry),
                        Delivery::Reliable,
                        update_of(after.players.last()),
                    ),
                ]
            } else {
                seq![answer]
            }
        },
        ServerBoundMessage::Connect => seq![
            to_one(packet.source, ClientBoundMessage::SetMap(map)),
        ] + lobby.players.map_values(|p: Player| to_one(packet.source, update_of(p))),
        _ => Seq::empty(),
    }
}

/// The lobby after the messages of `inbox`, applied in order.
pub open spec fn received(lobby: Lobby, inbox: Seq<ServerBound>) -> Lobby
    decreases inbox.len(),
{
    if inbox.len() == 0 {
        lobby
    } else {
        processed(received(lobby, inbox.drop_last()), inbox.last())
    }
}

/// What the host sends in answer to the messages of `inbox`, in order.
pub open spec fn answered(lobby: Lobby, map: TileMap, inbox: Seq<ServerBound>) -> Seq<Dispatch>
    decreases inbox.len(),
{
    if inbox.len() == 0 {
        Seq::empty()
    } else {
        answered(lobby, map, inbox.drop_last()) + issued(
            received(lobby, inbox.drop_last()),
            map,
            inbox.last(),
        )
    }
}

/// A round is over when more than one player has joined and at most one
/// of them has lives left.
pub open spec fn round_over(players: Seq<Player>) -> bool {
    players.len() > 1 && players.filter(|p: Player| p.state.lives > 0).len() <= 1
}

/// The player with full lives, marked dirty.
pub open spec fn rearmed(p: Player) -> Player {
    Player { state: State { lives: FULL_LIVES, ..p.state }, dirty: true, ..p }
}

/// The shot without lives, marked dirty.
pub open spec fn doomed(s: Shot) -> Shot {
    Shot { state: crate::shot::State { lives: 0, ..s.state }, dirty: true, ..s }
}

/// The player with its dirty flag cleared.
pub open spec fn clean_player(p: Player) -> Player {
    Player { dirty: false, ..p }
}

/// The shot with its dirty flag cleared.
pub open spec fn clean_shot(s: Shot) -> Shot {
    Shot { dirty: false, ..s }
}

/// The updates of the dirty players, in order, followed by those of the
/// dirty shots, each sent unreliably to every one of `targets`.
pub open spec fn deltas(
    players: Seq<Player>,
    shots: Seq<Shot>,
    targets: Seq<Peer>,
) -> Seq<Dispatch> {
    players.filter(|p: Player| p.dirty).map_values(
        |p: Player| to_all(targets, Delivery::Unreliable, update_of(p)),
    ) + shots.filter(|s: Shot| s.dirty).map_values(
        |s: Shot| to_all(targets, Delivery::Unreliable, shot_update_of(s)),
    )
}

/// There is at most one first client with a given socket.
pub proof fn lemma_first_at_is(registry: Seq<Client>, addr: Peer, i: int)
    requires
        is_first_at(registry, addr, i),
    ensures
        has_addr(registry, addr),
        (choose|k: int| is_first_at(registry, addr, k)) == i,
{
    let k = choose|k: int| is_first_at(registry, addr, k);
    if k < i {
        assert(registry[k].addr != addr);
    } else if i < k {
        assert(registry[i].addr != addr);
    }
}

/// Putting a client under its socket keeps the sockets distinct.
pub proof fn lemma_enrolled_distinct(registry: Seq<Client>, c: Client)
    requires
        distinct_addrs(registry),
    ensures
        distinct_addrs(enrolled(registry, c)),
{
    let after = enrolled(registry, c);
    if has_addr(registry, c.addr) {
        let w = choose|i: int| 0 <= i < registry.len() && (#[trigger] registry[i]).addr == c.addr;
        assert(is_first_at(registry, c.addr, w)) by {
            assert forall|j: int| 0 <= j < w implies (#[trigger] registry[j]).addr != c.addr by {
                assert(registry[j].addr != registry[w].addr);
            }
        }
        lemma_first_at_is(registry, c.addr, w);
        assert forall|i: int, j: int| 0 <= i < j < after.len() implies (#[trigger] after[i]).addr
            != (#[trigger] after[j]).addr by {
            assert(registry[i].addr != registry[j].addr);
        }
    } else {
        assert forall|i: int, j: int| 0 <= i < j < after.len() implies (#[trigger] after[i]).addr
            != (#[trigger] after[j]).addr by {
            if j < registry.len() {
                assert(registry[i].addr != registry[j].addr);
            } else {
                assert(registry[i].addr != c.addr);
            }
        }
    }
}

/// Changes that nobody made are not told: where no player and no shot is
/// dirty, there are no updates to send.
pub proof fn lemma_nothing_dirty_nothing_sent(
    players: Seq<Player>,
    shots: Seq<Shot>,
    targets: Seq<Peer>,
)
    requires
        forall|i: int| 0 <= i < players.len() ==> !(#[trigger] players[i]).dirty,
        forall|i: int| 0 <= i < shots.len() ==> !(#[trigger] shots[i]).dirty,
    ensures
        deltas(players, shots, targets) == Seq::<Dispatch>::empty(),
{
    let dirty_player = |p: Player| p.dirty;
    let dirty_shot = |s: Shot| s.dirty;
    assert(players.all(|p: Player| !dirty_player(p)));
    assert(shots.all(|s: Shot| !dirty_shot(s)));
    players.lemma_all_neg_filter_empty(dirty_player);
    shots.lemma_all_neg_filter_empty(dirty_shot);
    assert(deltas(players, shots, targets) =~= Seq::<Dispatch>::empty());
}

/// Filtering keeps a sequence whose elements all pass.
proof fn lemma_filter_keeps_all<A>(s: Seq<A>, pred: spec_fn(A) -> bool)
    requires
        forall|i: int| 0 <= i < s.len() ==> pred(#[trigger] s[i]),
    ensures
        s.filter(pred) == s,
    decreases s.len(),
{
    reveal_with_fuel(Seq::filter, 2);
    if s.len() > 0 {
        let rest = s.drop_last();
        assert forall|i: int| 0 <= i < rest.len() implies pred(#[trigger] rest[i]) by {
            assert(rest[i] == s[i]);
        }
        lemma_filter_keeps_all(rest, pred);
        assert(pred(s.last()));
        assert(s.filter(pred) == rest.push(s.last()));
        assert(rest.push(s.last()) =~= s);
    } else {
        assert(s.filter(pred) =~= s);
    }
}

/// Players with the same lives, one for one, are alive in the same
/// number.
proof fn lemma_same_lives_same_count(a: Seq<Player>, b: Seq<Player>)
    requires
        a.len() == b.len(),
        forall|i: int| 0 <= i < a.len() ==> (#[trigger] a[i]).state.lives == b[i].state.lives,
    ensures
        a.filter(|p: Player| p.state.lives > 0).len() == b.filter(
            |p: Player| p.state.lives > 0,
        ).len(),
    decreases a.len(),
{
    let alive = |p: Player| p.state.lives > 0;
    reveal_with_fuel(Seq::filter, 2);
    if a.len() > 0 {
        let ra = a.drop_last();
        let rb = b.drop_last();
        assert forall|i: int| 0 <= i < ra.len() implies (#[trigger] ra[i]).state.lives
            == rb[i].state.lives by {
            assert(ra[i] == a[i] && rb[i] == b[i]);
        }
        lemma_same_lives_same_count(ra, rb);
        assert(a.last().state.lives == b.last().state.lives) by {
            assert(a[a.len() - 1].state.lives == b[a.len() - 1].state.lives);
        }
        if alive(a.last()) {
            assert(a.filter(alive) == ra.filter(alive).push(a.last()));
            assert(b.filter(alive) == rb.filter(alive).push(b.last()));
        } else {
            assert(a.filter(alive) == ra.filter(alive));
            assert(b.filter(alive) == rb.filter(alive));
        }
    }
}

/// Messages other than requests to join create no player and change no
/// lives and no socket: a round that is over before such messages is
/// over after them.
pub proof fn lemma_round_stays_over(lobby: Lobby, inbox: Seq<ServerBound>)
    requires
        forall|i: int| 0 <= i < inbox.len() ==> !((#[trigger] inbox[i]).message is SetName),
    ensures
        received(lobby, inbox).registry == lobby.registry,
        received(lobby, inbox).players.len() == lobby.players.len(),
        forall|j: int|
            0 <= j < lobby.players.len() ==> (#[trigger] received(lobby, inbox).players[j]).state
                == lobby.players[j].state,
        round_over(received(lobby, inbox).players) == round_over(lobby.players),
    decreases inbox.len(),
{
    if inbox.len() > 0 {
        let rest = inbox.drop_last();
        assert forall|i: int| 0 <= i < rest.len() implies !((#[trigger] rest[i]).message
            is SetName) by {
            assert(rest[i] == inbox[i]);
        }
        lemma_round_stays_over(lobby, rest);
        let mid = received(lobby, rest);
        let packet = inbox.last();
        assert(!(inbox[inbox.len() - 1].message is SetName));
        let after = processed(mid, packet);
        if let ServerBoundMessage::UpdateInputs(inputs) = packet.message {
            if let Some(name) = packet.player_name {
                if has_name(mid.players, name@) {
                    let w = choose|w: int|
                        0 <= w < mid.players.len() && (#[trigger] mid.players[w]).state.name@
                            == name@;
                    lemma_first_named_exists(mid.players, name@, w);
                    let i = choose|i: int| is_first_named(mid.players, name@, i);
                    assert(0 <= i < mid.players.len());
                }
            }
        }
        assert(after.players.len() == mid.players.len());
        assert forall|j: int| 0
            <= j < lobby.players.len() implies (#[trigger] after.players[j]).state
            == lobby.players[j].state by {
            assert(mid.players[j].state == lobby.players[j].state);
        }
    }
    lemma_same_lives_same_count(received(lobby, inbox).players, lobby.players);
}

/// The update that tells a player after a new round has begun.
pub open spec fn reset_update(targets: Seq<Peer>, p: Player) -> Dispatch {
    to_all(targets, Delivery::Unreliable, update_of(rearmed(p)))
}

/// The update that tells a shot after a new round has begun.
pub open spec fn reset_shot_update(targets: Seq<Peer>, s: Shot) -> Dispatch {
    to_all(targets, Delivery::Unreliable, shot_update_of(doomed(s)))
}

/// When a new round begins, everything is told: the updates of that tick
/// are one for every player, carrying full lives, followed by one for
/// every shot, carrying no lives.
pub proof fn lemma_reset_tells_everything(
    players: Seq<Player>,
    shots: Seq<Shot>,
    targets: Seq<Peer>,
)
    ensures
        deltas(
            players.map_values(|p: Player| rearmed(p)),
            shots.map_values(|s: Shot| doomed(s)),
            targets,
        ) == players.map_values(|p: Player| reset_update(targets, p)) + shots.map_values(
            |s: Shot| reset_shot_update(targets, s),
        ),
        forall|i: int|
            0 <= i < players.len() ==> (#[trigger] reset_update(targets, players[i])).message == (
            ClientBoundMessage::PlayerUpdate(
                State { lives: FULL_LIVES, ..players[i].state },
                players[i].inputs,
            )),
        forall|i: int|
            0 <= i < shots.len() ==> (#[trigger] reset_shot_update(targets, shots[i])).message == (
            ClientBoundMessage::ShotUpdate(crate::shot::State { lives: 0, ..shots[i].state })),
{
    let ps = players.map_values(|p: Player| rearmed(p));
    let ss = shots.map_values(|s: Shot| doomed(s));
    let dirty_player = |p: Player| p.dirty;
    let dirty_shot = |s: Shot| s.dirty;
    lemma_filter_keeps_all(ps, dirty_player);
    lemma_filter_keeps_all(ss, dirty_shot);
    assert(ps.map_values(|p: Player| to_all(targets, Delivery::Unreliable, update_of(p)))
        =~= players.map_values(|p: Player| reset_update(targets, p)));
    assert(ss.map_values(|s: Shot| to_all(targets, Delivery::Unreliable, shot_update_of(s)))
        =~= shots.map_values(|s: Shot| reset_shot_update(targets, s)));
}

/// A round that is over when a tick begins, and that no request to join
/// reaches in that tick, starts anew within that tick: the tick finds the
/// round over after its messages, leaves every player with full lives
/// and every shot with none, and tells all of them with those lives.
pub proof fn lemma_round_reset_in_one_tick(lobby: Lobby, shots: Seq<Shot>, inbox: Seq<ServerBound>)
    requires
        round_over(lobby.players),
        forall|i: int| 0 <= i < inbox.len() ==> !((#[trigger] inbox[i]).message is SetName),
    ensures
        ({
            let mid = received(lobby, inbox);
            let targets = sockets_of(mid.registry);
            let players = mid.players.map_values(|p: Player| clean_player(rearmed(p)));
            let spent = shots.map_values(|s: Shot| clean_shot(doomed(s)));
            &&& round_over(mid.players)
            &&& players.len() == lobby.players.len()
            &&& forall|j: int| 0 <= j < players.len() ==> (#[trigger] players[j]).state.lives
                == FULL_LIVES
            &&& forall|j: int| 0 <= j < spent.len() ==> (#[trigger] spent[j]).state.lives == 0
            &&& deltas(
                mid.players.map_values(|p: Player| rearmed(p)),
                shots.map_values(|s: Shot| doomed(s)),
                targets,
            ) == mid.players.map_values(|p: Player| reset_update(targets, p)) + shots.map_values(
                |s: Shot| reset_shot_update(targets, s),
            )
        }),
{
    lemma_round_stays_over(lobby, inbox);
    let mid = received(lobby, inbox);
    lemma_reset_tells_everything(mid.players, shots, sockets_of(mid.registry));
}

/// A tick without messages, in a round that is not over and in which
/// nothing is dirty, sends nothing at all.
pub proof fn lemma_quiet_tick(lobby: Lobby, map: TileMap, shots: Seq<Shot>)
    requires
        forall|i: int| 0 <= i < lobby.players.len() ==> !(#[trigger] lobby.players[i]).dirty,
        forall|i: int| 0 <= i < shots.len() ==> !(#[trigger] shots[i]).dirty,
    ensures
        received(lobby, Seq::<ServerBound>::empty()) == lobby,
        answered(lobby, map, Seq::<ServerBound>::empty()) + deltas(
            lobby.players,
            shots,
            sockets_of(lobby.registry),
        ) == Seq::<Dispatch>::empty(),
{
    lemma_nothing_dirty_nothing_sent(lobby.players, shots, sockets_of(lobby.registry));
}

impl HostController {
    /// No socket is registered twice.
    pub open spec fn wf(&self) -> bool {
        distinct_addrs(self.players@)
    }

    /// A host that no client has joined.
    pub fn new() -> (r: Self)
        ensures
            r.players@ == Seq::<Client>::empty(),
            r.wf(),
    {
        Self { players: Vec::new() }
    }

    /// Index of the first client with the socket `addr`.
    fn find(&self, addr: Peer) -> (r: Option<usize>)
        ensures
            match r {
                Some(i) => is_first_at(self.players@, addr, i as int),
                None => !has_addr(self.players@, addr),
            },
    {
        let mut i: usize = 0;
        while i < self.players.len()
            invariant
                i <= self.players.len(),
                forall|j: int| 0 <= j < i ==> (#[trigger] self.players[j]).addr != addr,
            decreases self.players.len() - i,
        {
            if self.players[i].addr == addr {
                return Some(i);
            }
            i += 1;
        }
        None
    }

    /// The name of the player that is registered for the socket `addr`.
    pub fn name_of(&self, addr: Peer) -> (r: Option<String>)
        ensures
            match r {
                Some(name) => exists|i: int|
                    is_first_at(self.players@, addr, i) && name == self.players[i].name,
                None => !has_addr(self.players@, addr),
            },
    {
        match self.find(addr) {
            Some(i) => Some(self.players[i].name.clone()),
            None => None,
        }
    }

    /// The inbox entry for a message that arrived from `source`: the
    /// message with the name that is registered for the socket. A payload
    /// cannot announce or end a connection, so such messages are dropped.
    pub fn receive(&self, source: Peer, message: ServerBoundMessage) -> (r: Option<ServerBound>)
        ensures
            r.is_none() <==> message is Connect || message is Disconnect,
            r.is_some() ==> {
                &&& r.unwrap().message == message
                &&& r.unwrap().source == source
                &&& match r.unwrap().player_name {
                    Some(name) => exists|i: int|
                        is_first_at(self.players@, source, i) && name == self.players[i].name,
                    None => !has_addr(self.players@, source),
                }
            },
    {
        match message {
            ServerBoundMessage::Connect => None,
            ServerBoundMessage::Disconnect => None,
            _ => Some(ServerBound { message, player_name: self.name_of(source), source }),
        }
    }

    /// The inbox entry for a peer at `source` that the transport has
    /// connected.
    pub fn connected(source: Peer) -> (r: ServerBound)
        ensures
            r.message == ServerBoundMessage::Connect,
            r.player_name == None::<String>,
            r.source == source,
    {
        ServerBound { message: ServerBoundMessage::Connect, player_name: None, source }
    }

    /// Registers the socket `addr` for the player called `name`.
    pub fn enroll(&mut self, addr: Peer, name: String)
        ensures
            final(self).players@ == enrolled(old(self).players@, Client { addr, name }),
            old(self).wf() ==> final(self).wf(),
    {
        proof {
            if old(self).wf() {
                lemma_enrolled_distinct(old(self).players@, Client { addr, name });
            }
        }
        match self.find(addr) {
            Some(i) => {
                proof {
                    lemma_first_at_is(self.players@, addr, i as int);
                }
                self.players[i] = Client { addr, name };
            },
            None => {
                self.players.push(Client { addr, name });
            },
        }
    }

    /// The registered sockets, in order.
    pub fn sockets(&self) -> (r: Vec<Peer>)
        ensures
            r@ == sockets_of(self.players@),
    {
        let mut r: Vec<Peer> = Vec::new();
        let mut i: usize = 0;
        while i < self.players.len()
            invariant
                i <= self.players.len(),
                r.len() == i,
                forall|j: int| 0 <= j < i ==> #[trigger] r[j] == self.players[j].addr,
            decreases self.players.len() - i,
        {
            r.push(self.players[i].addr);
            i += 1;
        }
        assert(r@ =~= sockets_of(self.players@));
        r
    }

    /// The packet that sends `msg` reliably to `target` alone.
    pub fn send_reliable(target: Peer, msg: ClientBoundMessage) -> (r: Outgoing)
        ensures
            r.targets@ == seq![target],
            r.delivery == Delivery::Reliable,
            r.message == msg,
            is_dispatch(r, to_one(target, msg)),
    {
        let mut targets: Vec<Peer> = Vec::new();
        targets.push(target);
        assert(targets@ =~= seq![target]);
        Outgoing { targets, delivery: Delivery::Reliable, message: msg }
    }

    /// The packet that sends `msg` reliably to every registered socket.
    pub fn broadcast_reliable(&self, msg: ClientBoundMessage) -> (r: Outgoing)
        ensures
            r.targets@ == sockets_of(self.players@),
            r.delivery == Delivery::Reliable,
            r.message == msg,
            is_dispatch(r, to_all(sockets_of(self.players@), Delivery::Reliable, msg)),
    {
        Outgoing { targets: self.sockets(), delivery: Delivery::Reliable, message: msg }
    }

    /// Decides on a request to join as `name`, and answers it to `source`:
    /// the request is accepted exactly if no player has that name.
    pub fn set_name(name: &String, source: Peer, player_controller: &PlayerController) -> (r: (
        bool,
        Outgoing,
    ))
        ensures
            r.0 == !has_name(player_controller.players@, name@),
            r.1.targets@ == seq![source],
            r.1.delivery == Delivery::Reliable,
            r.1.message == (ClientBoundMessage::SetNameResponse { accepted: r.0 }),
    {
        let accepted = player_controller.find(name).is_none();
        let response = ClientBoundMessage::SetNameResponse { accepted };
        (accepted, Self::send_reliable(source, response))
    }

    /// Index of the player that a packet names, if the game has it.
    pub fn get_player(player_name: &Option<String>, player_controller: &PlayerController) -> (r:
        Option<usize>)
        ensures
            match (r, *player_name) {
                (Some(i), Some(name)) => is_first_named(player_controller.players@, name@,
                    i as int),
                (None, Some(name)) => !has_name(player_controller.players@, name@),
                (None, None) => true,
                (Some(_), None) => false,
            },
    {
        match player_name {
            Some(name) => player_controller.find(name),
            None => None,
        }
    }

    /// The packets that bring the peer at `target` up to date: the map,
    /// and every player.
    fn catch_up(
        target: Peer,
        player_controller: &PlayerController,
        map_controller: &MapController,
    ) -> (r:
        Vec<Outgoing>)
        ensures
            carries(
                r@,
                seq![to_one(target, ClientBoundMessage::SetMap(map_controller.map))]
                    + player_controller.players@.map_values(
                    |p: Player| to_one(target, update_of(p)),
                ),
            ),
    {
        let mut out: Vec<Outgoing> = Vec::new();
        let ghost first = to_one(target, ClientBoundMessage::SetMap(map_controller.map));
        let ghost rest = player_controller.players@.map_values(
            |p: Player| to_one(target, update_of(p)),
        );
        out.push(Self::send_reliable(target,
            ClientBoundMessage::SetMap(map_controller.map.clone())));
        let mut i: usize = 0;
        while i < player_controller.players.len()
            invariant
                i <= player_controller.players.len(),
                first == to_one(target, ClientBoundMessage::SetMap(map_controller.map)),
                rest == player_controller.players@.map_values(
                    |p: Player| to_one(target, update_of(p)),
                ),
                out.len() == i + 1,
                is_dispatch(out[0], first),
                forall|j: int| 0 <= j < i ==> is_dispatch(#[trigger] out[j + 1], rest[j]),
            decreases player_controller.players.len() - i,
        {
            let player = &player_controller.players[i];
            let msg = ClientBoundMessage::PlayerUpdate(player.state.clone(), player.inputs);
            out.push(Self::send_reliable(target, msg));
            i += 1;
        }
        proof {
            let expected = seq![first] + rest;
            assert forall|j: int| 0 <= j < out.len() implies is_dispatch(
                #[trigger] out[j],
                expected[j],
            ) by {
                if j > 0 {
                    assert(is_dispatch(out[(j - 1) + 1], rest[j - 1]));
                }
            }
        }
        out
    }

    /// Applies one message to the game and returns the packets that
    /// answer it.
    pub fn process(
        &mut self,
        packet: &ServerBound,
        player_controller: &mut PlayerController,
        map_controller: &MapController,
    ) -> (out: Vec<Outgoing>)
        ensures
            ({
                let before = Lobby {
                    registry: old(self).players@,
                    players: old(player_controller).players@,
                };
                let after = processed(before, *packet);
                &&& final(self).players@ == after.registry
                &&& final(player_controller).players@ == after.players
                &&& carries(out@, issued(before, map_controller.map, *packet))
            }),
            old(self).wf() ==> final(self).wf(),
            old(player_controller).wf() ==> final(player_controller).wf(),
    {
        let ghost before = Lobby { registry: self.players@, players: player_controller.players@ };
        let mut out: Vec<Outgoing> = Vec::new();
        match &packet.message {
            ServerBoundMessage::SetName(name) => {
                let (accepted, response) = Self::set_name(name, packet.source, player_controller);
                out.push(response);
                if accepted {
                    if let Some(color) = player_controller.get_free_color() {
                        self.enroll(packet.source, name.clone());
                        let player = Player::new(name.clone(), SPAWN_X, SPAWN_Y, color);
                        let new_player = ClientBoundMessage::PlayerUpdate(
                            player.state.clone(),
                            player.inputs,
                        );
                        proof {
                            if player_controller.wf() {
                                lemma_placed_distinct(player_controller.players@, player);
                            }
                        }
                        player_controller.insert(player);
                        out.push(self.broadcast_reliable(new_player));
                    }
                }
            },
            ServerBoundMessage::UpdateInputs(inputs) => {
                if let Some(i) = Self::get_player(&packet.player_name, player_controller) {
                    proof {
                        lemma_first_named_is(
                            player_controller.players@,
                            packet.player_name.unwrap()@,
                            i as int,
                        );
                    }
                    player_controller.players[i].inputs = *inputs;
                    player_controller.players[i].dirty = true;
                    proof {
                        if old(player_controller).wf() {
                            assert(crate::player_controller::names_of(player_controller.players@)
                                =~= crate::player_controller::names_of(
                                old(player_controller).players@,
                            ));
                            crate::player_controller::lemma_same_names_distinct(
                                old(player_controller).players@,
                                player_controller.players@,
                            );
                        }
                    }
                }
            },
            ServerBoundMessage::Connect => {
                out = Self::catch_up(packet.source, player_controller, map_controller);
            },
            ServerBoundMessage::Disconnect => {},
        }
        out
    }

    /// Whether the round is over.
    pub fn is_round_over(player_controller: &PlayerController) -> (r: bool)
        ensures
            r == round_over(player_controller.players@),
    {
        let ghost alive = |p: Player| p.state.lives > 0;
        let ghost players = player_controller.players@;
        let mut players_alive: usize = 0;
        let mut i: usize = 0;
        while i < player_controller.players.len()
            invariant
                i <= player_controller.players.len(),
                players == player_controller.players@,
                alive == |p: Player| p.state.lives > 0,
                players_alive == players.take(i as int).filter(alive).len(),
                players_alive <= i,
            decreases player_controller.players.len() - i,
        {
            proof {
                let before = players.take(i as int);
                let after = players.take(i + 1);
                assert(after.drop_last() == before);
                assert(after.last() == players[i as int]);
                reveal_with_fuel(Seq::filter, 2);
                if alive(players[i as int]) {
                    assert(after.filter(alive) == before.filter(alive).push(players[i as int]));
                } else {
                    assert(after.filter(alive) == before.filter(alive));
                }
            }
            if player_controller.players[i].state.lives > 0 {
                players_alive += 1;
            }
            i += 1;
        }
        assert(players.take(i as int) == players);
        let player_count = player_controller.players.len();
        player_count > 1 && players_alive <= 1
    }

    /// Starts a new round on `map`: the map replaces the old one and is
    /// announced reliably to every registered socket, every player gets
    /// full lives, every shot loses its lives, and all are marked dirty.
    pub fn reset_round(
        &self,
        map: TileMap,
        player_controller: &mut PlayerController,
        shot_controller: &mut ShotController,
        map_controller: &mut MapController,
    ) -> (r: Outgoing)
        ensures
            final(map_controller).map == map,
            final(player_controller).players@ == old(player_controller).players@.map_values(
                |p: Player| rearmed(p),
            ),
            final(shot_controller).shots@ == old(shot_controller).shots@.map_values(
                |s: Shot| doomed(s),
            ),
            final(shot_controller).next_id == old(shot_controller).next_id,
            is_dispatch(
                r,
                to_all(sockets_of(self.players@), Delivery::Reliable,
                    ClientBoundMessage::SetMap(map)),
            ),
            old(player_controller).wf() ==> final(player_controller).wf(),
            old(shot_controller).wf() ==> final(shot_controller).wf(),
    {
        let announce = self.broadcast_reliable(ClientBoundMessage::SetMap(map.clone()));
        map_controller.map = map;

        let mut i: usize = 0;
        while i < player_controller.players.len()
            invariant
                i <= player_controller.players.len(),
                player_controller.players.len() == old(player_controller).players.len(),
                forall|j: int|
                    0 <= j < i ==> player_controller.players[j] == rearmed(
                        old(player_controller).players[j],
                    ),
                forall|j: int|
                    i <= j < player_controller.players.len() ==> player_controller.players[j]
                        == old(player_controller).players[j],
            decreases player_controller.players.len() - i,
        {
            player_controller.players[i].state.lives = FULL_LIVES;
            player_controller.players[i].dirty = true;
            i += 1;
        }
        let mut k: usize = 0;
        while k < shot_controller.shots.len()
            invariant
                k <= shot_controller.shots.len(),
                shot_controller.shots.len() == old(shot_controller).shots.len(),
                shot_controller.next_id == old(shot_controller).next_id,
                forall|j: int|
                    0 <= j < k ==> shot_controller.shots[j]
                        == doomed(old(shot_controller).shots[j]),
                forall|j: int|
                    k <= j < shot_controller.shots.len() ==> shot_controller.shots[j]
                        == old(shot_controller).shots[j],
            decreases shot_controller.shots.len() - k,
        {
            shot_controller.shots[k].state.lives = 0;
            shot_controller.shots[k].dirty = true;
            k += 1;
        }
        proof {
            assert(player_controller.players@ =~= old(player_controller).players@.map_values(
                |p: Player| rearmed(p),
            ));
            assert(shot_controller.shots@ =~= old(shot_controller).shots@.map_values(
                |s: Shot| doomed(s),
            ));
            if old(player_controller).wf() {
                assert(crate::player_controller::names_of(player_controller.players@)
                    =~= crate::player_controller::names_of(old(player_controller).players@));
                crate::player_controller::lemma_same_names_distinct(
                    old(player_controller).players@,
                    player_controller.players@,
                );
            }
            if old(shot_controller).wf() {
                assert forall|a: int, b: int| 0 <= a < b < shot_controller.shots.len() implies (
                #[trigger] shot_controller.shots[a]).state.id.key() != (
                #[trigger] shot_controller.shots[b]).state.id.key() by {
                    assert(old(shot_controller).shots[a].state.id.key()
                        != old(shot_controller).shots[b].state.id.key());
                }
            }
        }
        announce
    }

    /// Starts a new round on a freshly generated map if the round is
    /// over, and does nothing otherwise.
    pub fn update_game_state(
        &self,
        player_controller: &mut PlayerController,
        shot_controller: &mut ShotController,
        map_controller: &mut MapController,
    ) -> (out: Vec<Outgoing>)
        ensures
            final(shot_controller).next_id == old(shot_controller).next_id,
            old(player_controller).wf() ==> final(player_controller).wf(),
            old(shot_controller).wf() ==> final(shot_controller).wf(),
            if round_over(old(player_controller).players@) {
                &&& final(map_controller).map.generated()
                &&& final(player_controller).players@ == old(player_controller).players@.map_values(
                    |p: Player| rearmed(p),
                )
                &&& final(shot_controller).shots@ == old(shot_controller).shots@.map_values(
                    |s: Shot| doomed(s),
                )
                &&& carries(
                    out@,
                    seq![
                        to_all(
                            sockets_of(self.players@),
                            Delivery::Reliable,
                            ClientBoundMessage::SetMap(final(map_controller).map),
                        ),
                    ],
                )
            } else {
                &&& *final(map_controller) == *old(map_controller)
                &&& *final(player_controller) == *old(player_controller)
                &&& *final(shot_controller) == *old(shot_controller)
                &&& out@ == Seq::<Outgoing>::empty()
            },
    {
        let mut out: Vec<Outgoing> = Vec::new();
        if Self::is_round_over(player_controller) {
            let map = TileMap::new();
            out.push(self.reset_round(map, player_controller, shot_controller, map_controller));
        }
        out
    }

    /// The updates of the dirty players and shots, to be sent unreliably
    /// to every registered socket. The dirty flags are cleared.
    pub fn broadcast_dirty(
        &self,
        player_controller: &mut PlayerController,
        shot_controller: &mut ShotController,
    ) -> (out: Vec<Outgoing>)
        ensures
            carries(
                out@,
                deltas(
                    old(player_controller).players@,
                    old(shot_controller).shots@,
                    sockets_of(self.players@),
                ),
            ),
            final(player_controller).players@ == old(player_controller).players@.map_values(
                |p: Player| clean_player(p),
            ),
            final(shot_controller).shots@ == old(shot_controller).shots@.map_values(
                |s: Shot| clean_shot(s),
            ),
            final(shot_controller).next_id == old(shot_controller).next_id,
            old(player_controller).wf() ==> final(player_controller).wf(),
            old(shot_controller).wf() ==> final(shot_controller).wf(),
    {
        let mut out: Vec<Outgoing> = Vec::new();
        let ghost targets = sockets_of(self.players@);
        let ghost players = player_controller.players@;
        let ghost shots = shot_controller.shots@;
        let ghost dirty_player = |p: Player| p.dirty;
        let ghost dirty_shot = |s: Shot| s.dirty;
        let ghost tell_player = |p: Player| to_all(targets, Delivery::Unreliable, update_of(p));
        let ghost tell_shot = |s: Shot| to_all(targets, Delivery::Unreliable, shot_update_of(s));

        let mut i: usize = 0;
        while i < player_controller.players.len()
            invariant
                i <= player_controller.players.len(),
                player_controller.players.len() == players.len(),
                targets == sockets_of(self.players@),
                dirty_player == |p: Player| p.dirty,
                tell_player == |p: Player| to_all(targets, Delivery::Unreliable, update_of(p)),
                carries(out@, players.take(i as int).filter(dirty_player).map_values(tell_player)),
                forall|j: int|
                    0 <= j < i ==> player_controller.players[j] == clean_player(players[j]),
                forall|j: int|
                    i <= j < players.len() ==> player_controller.players[j] == players[j],
            decreases player_controller.players.len() - i,
        {
            let ghost sent = out@;
            proof {
                let before = players.take(i as int);
                let after = players.take(i + 1);
                assert(after.drop_last() == before);
                assert(after.last() == players[i as int]);
                reveal_with_fuel(Seq::filter, 2);
                if dirty_player(players[i as int]) {
                    assert(after.filter(dirty_player) == before.filter(dirty_player).push(
                        players[i as int],
                    ));
                    assert(after.filter(dirty_player).map_values(tell_player) == before.filter(
                        dirty_player,
                    ).map_values(tell_player).push(tell_player(players[i as int])));
                } else {
                    assert(after.filter(dirty_player) == before.filter(dirty_player));
                }
            }
            if player_controller.players[i].dirty {
                player_controller.players[i].dirty = false;
                let msg = ClientBoundMessage::PlayerUpdate(
                    player_controller.players[i].state.clone(),
                    player_controller.players[i].inputs,
                );
                out.push(
                    Outgoing { targets: self.sockets(), delivery: Delivery::Unreliable,
                        message: msg },
                );
                proof {
                    let want = players.take(i + 1).filter(dirty_player).map_values(tell_player);
                    assert forall|j: int| 0 <= j < out.len() implies is_dispatch(
                        #[trigger] out[j],
                        want[j],
                    ) by {
                        if j < sent.len() {
                            assert(is_dispatch(sent[j], want[j]));
                        }
                    }
                }
            }
            i += 1;
        }
        let ghost first = out@;
        proof {
            assert(players.take(i as int) == players);
        }

        let mut k: usize = 0;
        while k < shot_controller.shots.len()
            invariant
                k <= shot_controller.shots.len(),
                shot_controller.shots.len() == shots.len(),
                shot_controller.next_id == old(shot_controller).next_id,
                targets == sockets_of(self.players@),
                dirty_shot == |s: Shot| s.dirty,
                tell_shot == |s: Shot| to_all(targets, Delivery::Unreliable, shot_update_of(s)),
                first.len() <= out.len(),
                out@.take(first.len() as int) == first,
                carries(
                    out@.skip(first.len() as int),
                    shots.take(k as int).filter(dirty_shot).map_values(tell_shot),
                ),
                forall|j: int| 0 <= j < k ==> shot_controller.shots[j] == clean_shot(shots[j]),
                forall|j: int| k <= j < shots.len() ==> shot_controller.shots[j] == shots[j],
            decreases shot_controller.shots.len() - k,
        {
            let ghost sent = out@.skip(first.len() as int);
            proof {
                let before = shots.take(k as int);
                let after = shots.take(k + 1);
                assert(after.drop_last() == before);
                assert(after.last() == shots[k as int]);
                reveal_with_fuel(Seq::filter, 2);
                if dirty_shot(shots[k as int]) {
                    assert(after.filter(dirty_shot) == before.filter(dirty_shot).push(
                        shots[k as int],
                    ));
                    assert(after.filter(dirty_shot).map_values(tell_shot) == before.filter(
                        dirty_shot,
                    ).map_values(tell_shot).push(tell_shot(shots[k as int])));
                } else {
                    assert(after.filter(dirty_shot) == before.filter(dirty_shot));
                }
            }
            if shot_controller.shots[k].dirty {
                shot_controller.shots[k].dirty = false;
                let msg = ClientBoundMessage::ShotUpdate(shot_controller.shots[k].state.clone());
                let ghost whole = out@;
                out.push(
                    Outgoing { targets: self.sockets(), delivery: Delivery::Unreliable,
                        message: msg },
                );
                proof {
                    let want = shots.take(k + 1).filter(dirty_shot).map_values(tell_shot);
                    let now = out@.skip(first.len() as int);
                    assert(out@.take(first.len() as int) == whole.take(first.len() as int));
                    assert forall|j: int| 0 <= j < now.len() implies is_dispatch(
                        #[trigger] now[j],
                        want[j],
                    ) by {
                        if j < sent.len() {
                            assert(now[j] == sent[j]);
                            assert(is_dispatch(sent[j], want[j]));
                        }
                    }
                }
            }
            k += 1;
        }
        proof {
            assert(shots.take(k as int) == shots);
            let second = out@.skip(first.len() as int);
            assert(out@ == first + second);
            lemma_carries_both(
                first,
                players.filter(dirty_player).map_values(tell_player),
                second,
                shots.filter(dirty_shot).map_values(tell_shot),
            );
            assert(player_controller.players@ =~= players.map_values(|p: Player| clean_player(p)));
            assert(shot_controller.shots@ =~= shots.map_values(|s: Shot| clean_shot(s)));
            if old(player_controller).wf() {
                assert(crate::player_controller::names_of(player_controller.players@)
                    =~= crate::player_controller::names_of(players));
                crate::player_controller::lemma_same_names_distinct(
                    players,
                    player_controller.players@,
                );
            }
            if old(shot_controller).wf() {
                assert forall|a: int, b: int| 0 <= a < b < shot_controller.shots.len() implies (
                #[trigger] shot_controller.shots[a]).state.id.key() != (
                #[trigger] shot_controller.shots[b]).state.id.key() by {
                    assert(shots[a].state.id.key() != shots[b].state.id.key());
                }
            }
        }
        out
    }

    /// One tick of the host. The messages of `inbox` are applied in
    /// order and answered; then a new round is started if the round is
    /// over; then the updates of everything dirty are sent and the dirty
    /// flags cleared. The packets come back in that order. Any other
    /// event changes nothing and sends nothing.
    pub fn event(
        &mut self,
        e: &Event,
        inbox: Vec<ServerBound>,
        player_controller: &mut PlayerController,
        shot_controller: &mut ShotController,
        map_controller: &mut MapController,
    ) -> (out: Vec<Outgoing>)
        ensures
            final(shot_controller).next_id == old(shot_controller).next_id,
            old(self).wf() ==> final(self).wf(),
            old(player_controller).wf() ==> final(player_controller).wf(),
            old(shot_controller).wf() ==> final(shot_controller).wf(),
            !(*e is Update) ==> {
                &&& *final(self) == *old(self)
                &&& *final(player_controller) == *old(player_controller)
                &&& *final(shot_controller) == *old(shot_controller)
                &&& *final(map_controller) == *old(map_controller)
                &&& out@ == Seq::<Outgoing>::empty()
            },
            *e is Update ==> ({
                let before = Lobby {
                    registry: old(self).players@,
                    players: old(player_controller).players@,
                };
                let shots = old(shot_controller).shots@;
                let mid = received(before, inbox@);
                let targets = sockets_of(mid.registry);
                let answers = answered(before, old(map_controller).map, inbox@);
                &&& final(self).players@ == mid.registry
                &&& round_over(mid.players) ==> {
                    &&& final(map_controller).map.generated()
                    &&& final(player_controller).players@ == mid.players.map_values(
                        |p: Player| clean_player(rearmed(p)),
                    )
                    &&& final(shot_controller).shots@ == shots.map_values(
                        |s: Shot| clean_shot(doomed(s)),
                    )
                    &&& carries(
                        out@,
                        answers + seq![
                            to_all(
                                targets,
                                Delivery::Reliable,
                                ClientBoundMessage::SetMap(final(map_controller).map),
                            ),
                        ] + deltas(
                            mid.players.map_values(|p: Player| rearmed(p)),
                            shots.map_values(|s: Shot| doomed(s)),
                            targets,
                        ),
                    )
                }
                &&& !round_over(mid.players) ==> {
                    &&& *final(map_controller) == *old(map_controller)
                    &&& final(player_controller).players@ == mid.players.map_values(
                        |p: Player| clean_player(p),
                    )
                    &&& final(shot_controller).shots@ == shots.map_values(|s: Shot| clean_shot(s))
                    &&& carries(out@, answers + deltas(mid.players, shots, targets))
                }
            }),
    {
        let mut out: Vec<Outgoing> = Vec::new();
        if let Event::Update { .. } = e {
            let ghost before = Lobby {
                registry: self.players@,
                players: player_controller.players@,
            };
            let ghost map = map_controller.map;
            let mut i: usize = 0;
            while i < inbox.len()
                invariant
                    i <= inbox.len(),
                    *map_controller == *old(map_controller),
                    map == map_controller.map,
                    *shot_controller == *old(shot_controller),
                    before == (Lobby {
                        registry: old(self).players@,
                        players: old(player_controller).players@,
                    }),
                    (Lobby { registry: self.players@, players: player_controller.players@ })
                        == received(before, inbox@.take(i as int)),
                    carries(out@, answered(before, map, inbox@.take(i as int))),
                    old(self).wf() ==> self.wf(),
                    old(player_controller).wf() ==> player_controller.wf(),
                decreases inbox.len() - i,
            {
                let ghost sent = out@;
                let ghost lobby = Lobby { registry: self.players@,
                    players: player_controller.players@ };
                let mut answers = self.process(&inbox[i], player_controller, map_controller);
                proof {
                    let taken = inbox@.take(i + 1);
                    assert(taken.drop_last() == inbox@.take(i as int));
                    assert(taken.last() == inbox[i as int]);
                    lemma_carries_both(
                        sent,
                        answered(before, map, inbox@.take(i as int)),
                        answers@,
                        issued(lobby, map, inbox[i as int]),
                    );
                }
                out.append(&mut answers);
                i += 1;
            }
            proof {
                assert(inbox@.take(i as int) == inbox@);
            }
            let ghost mid = Lobby { registry: self.players@, players: player_controller.players@ };
            let ghost shots = shot_controller.shots@;
            let ghost targets = sockets_of(self.players@);
            let ghost answers = answered(before, map, inbox@);

            let ghost sent = out@;
            let mut reset = self.update_game_state(player_controller, shot_controller,
                map_controller);
            let ghost announced = reset@;
            out.append(&mut reset);
            let ghost players2 = player_controller.players@;
            let ghost shots2 = shot_controller.shots@;

            let ghost sent2 = out@;
            let mut news = self.broadcast_dirty(player_controller, shot_controller);
            let ghost told = news@;
            out.append(&mut news);
            proof {
                if round_over(mid.players) {
                    let word = seq![
                        to_all(
                            targets,
                            Delivery::Reliable,
                            ClientBoundMessage::SetMap(map_controller.map),
                        ),
                    ];
                    lemma_carries_both(sent, answers, announced, word);
                    lemma_carries_both(sent2, answers + word, told, deltas(players2, shots2,
                        targets));
                    assert(player_controller.players@ =~= mid.players.map_values(
                        |p: Player| clean_player(rearmed(p)),
                    ));
                    assert(shot_controller.shots@ =~= shots.map_values(
                        |s: Shot| clean_shot(doomed(s)),
                    ));
                } else {
                    assert(sent2 == sent);
                    lemma_carries_both(sent2, answers, told, deltas(players2, shots2, targets));
                }
            }
        }
        out
    }
}

} // verus!

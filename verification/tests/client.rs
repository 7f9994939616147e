use twodbattle::color::Color;
use twodbattle::input::{Button, ButtonState, Event, Key};
use twodbattle::local_input_controller::LocalInputController;
use twodbattle::map::TileMap;
use twodbattle::map_controller::MapController;
use twodbattle::network::client_controller::{ClientBound, ClientController, ClientError};
use twodbattle::network::host_controller::{HostController, ServerBound};
use twodbattle::network::messages::{ClientBoundMessage, ServerBoundMessage};
use twodbattle::network::packet::{Delivery, Peer};
use twodbattle::player::{Inputs, Player, State};
use twodbattle::player_controller::PlayerController;
use twodbattle::shot::{Id, Shot};
use twodbattle::shot_controller::ShotController;

const TICK: Event = Event::Update { dt: 10_000 };

fn host() -> Peer {
    Peer::V4 { ip: 0x0a00_0001, port: 4000 }
}

fn state(name: &str, x: i64, lives: u8) -> State {
    State {
        name: name.to_string(),
        x,
        y: 2 * x,
        width: 20_000,
        height: 20_000,
        color: Color::from_palette(2),
        dx: 7,
        dy: -7,
        lives,
    }
}

fn running() -> Inputs {
    Inputs { left: false, right: true, jump: false, shoot: false, mouse_x: 9, mouse_y: 8 }
}

fn shot_state(id: u32, owner: &str, x: i64) -> twodbattle::shot::State {
    twodbattle::shot::State { id: Id { id, owner: owner.to_string() }, x, y: 0, dx: 1, dy: 2,
        lives: 3 }
}

struct Copy {
    client: ClientController,
    players: PlayerController,
    shots: ShotController,
    map: MapController,
    local: Option<LocalInputController>,
}

fn copy(local: Option<&str>) -> Copy {
    Copy {
        client: ClientController::new(host()),
        players: PlayerController::new(),
        shots: ShotController::new(),
        map: MapController::new(TileMap::default()),
        local: local.map(|n| LocalInputController::new(n.to_string())),
    }
}

impl Copy {
    fn process(&mut self, message: ClientBoundMessage) -> Result<(), ClientError> {
        ClientController::process(
            ClientBound { message },
            &mut self.players,
            &self.local,
            &mut self.shots,
            &mut self.map,
        )
    }

    fn tick(&mut self, inbox: Vec<ClientBoundMessage>) -> Result<Option<ServerBoundMessage>,
        ClientError> {
        let inbox = inbox.into_iter().map(|message| ClientBound { message }).collect();
        let upload = self.client.event(
            &TICK,
            inbox,
            &mut self.players,
            &mut self.map,
            &mut self.shots,
            &mut self.local,
        )?;
        Ok(upload.map(|u| {
            assert_eq!(u.target, host());
            assert_eq!(u.delivery, Delivery::Unreliable);
            u.message
        }))
    }
}

#[test]
fn the_request_to_join_is_sent_reliably() {
    let upload = ClientController::set_name(&host(), "Alice".to_string());
    assert_eq!(upload.target, host());
    assert_eq!(upload.delivery, Delivery::Reliable);
    assert!(matches!(upload.message, ServerBoundMessage::SetName(ref n) if n == "Alice"));
    assert_eq!(ClientController::new(host()).host, host());
}

#[test]
fn a_refusal_is_an_error() {
    let mut c = copy(Some("Alice"));
    assert_eq!(
        c.process(ClientBoundMessage::SetNameResponse { accepted: false }),
        Err(ClientError::NameTaken)
    );
    assert_eq!(c.process(ClientBoundMessage::SetNameResponse { accepted: true }), Ok(()));
    assert_eq!(ClientError::NameTaken.message(), "name already taken");
    assert!(c.players.players.is_empty());
}

#[test]
fn a_map_replaces_the_local_one() {
    let mut c = copy(None);
    let map = TileMap { width: 2, height: 1, cells: vec![vec![true], vec![false]] };
    assert_eq!(c.process(ClientBoundMessage::SetMap(map)), Ok(()));
    assert_eq!((c.map.map.width, c.map.map.height), (2, 1));
    assert_eq!(c.map.map.cells, vec![vec![true], vec![false]]);
    let next = TileMap { width: 1, height: 1, cells: vec![vec![false]] };
    assert_eq!(c.process(ClientBoundMessage::SetMap(next)), Ok(()));
    assert_eq!(c.map.map.cells, vec![vec![false]]);
}

#[test]
fn a_map_of_the_wrong_shape_is_dropped() {
    let mut c = copy(None);
    let map = TileMap { width: 2, height: 1, cells: vec![vec![true], vec![false]] };
    c.process(ClientBoundMessage::SetMap(map)).unwrap();
    let ragged = TileMap { width: 2, height: 2, cells: vec![vec![true, true], vec![false]] };
    assert_eq!(c.process(ClientBoundMessage::SetMap(ragged)), Ok(()));
    let short = TileMap { width: 3, height: 1, cells: vec![vec![true], vec![false]] };
    assert_eq!(c.process(ClientBoundMessage::SetMap(short)), Ok(()));
    assert_eq!((c.map.map.width, c.map.map.height), (2, 1));
    assert_eq!(c.map.map.cells, vec![vec![true], vec![false]]);
}

#[test]
fn an_unseen_player_is_created() {
    let mut c = copy(Some("Alice"));
    c.process(ClientBoundMessage::PlayerUpdate(state("Bob", 100, 12), running())).unwrap();
    assert_eq!(c.players.players.len(), 1);
    let bob = &c.players.players[0];
    assert_eq!(bob.state.name, "Bob");
    assert_eq!((bob.state.x, bob.state.y, bob.state.dx, bob.state.dy), (100, 200, 7, -7));
    assert_eq!(bob.state.lives, 12);
    assert_eq!(bob.state.color, Color::from_palette(2));
    assert_eq!(bob.inputs, running());
    assert!(!bob.on_ground);
    assert!(bob.has_double_jump);
    assert!(bob.dirty);
}

#[test]
fn another_player_is_overwritten() {
    let mut c = copy(Some("Alice"));
    c.process(ClientBoundMessage::PlayerUpdate(state("Bob", 100, 12), Inputs::default())).unwrap();
    c.players.players[0].on_ground = true;
    c.players.players[0].has_double_jump = false;
    c.players.players[0].dirty = false;
    c.process(ClientBoundMessage::PlayerUpdate(state("Bob", 300, 11), running())).unwrap();
    assert_eq!(c.players.players.len(), 1);
    let bob = &c.players.players[0];
    assert_eq!((bob.state.x, bob.state.y, bob.state.lives), (300, 600, 11));
    assert_eq!(bob.inputs, running());
    // What is not replicated stays.
    assert!(bob.on_ground);
    assert!(!bob.has_double_jump);
    assert!(!bob.dirty);
}

#[test]
fn without_a_local_player_every_player_is_overwritten() {
    let mut c = copy(None);
    c.process(ClientBoundMessage::PlayerUpdate(state("Alice", 100, 12), running())).unwrap();
    c.process(ClientBoundMessage::PlayerUpdate(state("Alice", 300, 11), Inputs::default())).unwrap();
    assert_eq!(c.players.players[0].state.x, 300);
    assert_eq!(c.players.players[0].inputs, Inputs::default());
}

#[test]
fn the_local_player_is_synced_while_it_stands_still() {
    let mut c = copy(Some("Alice"));
    c.process(ClientBoundMessage::PlayerUpdate(state("Alice", 100, 12), Inputs::default())).unwrap();
    c.players.players[0].on_ground = true;
    c.players.players[0].inputs.shoot = true;
    c.players.players[0].inputs.mouse_x = 55;
    c.process(ClientBoundMessage::PlayerUpdate(state("Alice", 300, 11), running())).unwrap();
    let alice = &c.players.players[0];
    // The state is taken, the inputs stay local.
    assert_eq!((alice.state.x, alice.state.y, alice.state.lives), (300, 600, 11));
    assert!(!alice.inputs.right);
    assert!(alice.inputs.shoot);
    assert_eq!(alice.inputs.mouse_x, 55);
}

#[test]
fn the_local_player_is_not_overridden_while_it_moves() {
    for held in 0..4 {
        let mut c = copy(Some("Alice"));
        c.process(ClientBoundMessage::PlayerUpdate(state("Alice", 100, 12), Inputs::default()))
            .unwrap();
        let alice = &mut c.players.players[0];
        alice.on_ground = held != 3;
        alice.inputs.left = held == 0;
        alice.inputs.right = held == 1;
        alice.inputs.jump = held == 2;
        let inputs = alice.inputs;
        c.process(ClientBoundMessage::PlayerUpdate(state("Alice", 300, 11), running())).unwrap();
        let alice = &c.players.players[0];
        assert_eq!((alice.state.x, alice.state.y, alice.state.lives), (100, 200, 12));
        assert_eq!(alice.inputs, inputs);
    }
}

#[test]
fn a_new_shot_takes_the_color_of_its_owner() {
    let mut c = copy(None);
    c.process(ClientBoundMessage::PlayerUpdate(state("Bob", 100, 12), Inputs::default())).unwrap();
    c.process(ClientBoundMessage::ShotUpdate(shot_state(4, "Bob", 50))).unwrap();
    assert_eq!(c.shots.shots.len(), 1);
    let s = &c.shots.shots[0];
    assert_eq!(s.state.id, Id { id: 4, owner: "Bob".to_string() });
    assert_eq!((s.state.x, s.state.y, s.state.dx, s.state.dy, s.state.lives), (50, 0, 1, 2, 3));
    assert_eq!((s.w, s.h), (15_000, 15_000));
    assert_eq!(s.color, Color::from_palette(2));
    assert!(s.dirty);
    assert_eq!(c.shots.next_id, 0);
}

#[test]
fn a_shot_of_an_unknown_owner_is_white() {
    let mut c = copy(None);
    c.process(ClientBoundMessage::ShotUpdate(shot_state(4, "Nobody", 50))).unwrap();
    assert_eq!(c.shots.shots[0].color, Color::white());
    assert_eq!(c.shots.shots[0].color, Color { r: 1000, g: 1000, b: 1000, a: 1000 });
}

#[test]
fn a_known_shot_is_overwritten() {
    let mut c = copy(None);
    c.shots.insert(Shot::new(1, 1, 1, 1, 4, "Bob".to_string(), Color::from_palette(5)));
    c.shots.insert(Shot::new(2, 2, 2, 2, 4, "Carol".to_string(), Color::from_palette(6)));
    c.shots.shots[1].dirty = false;
    c.process(ClientBoundMessage::ShotUpdate(shot_state(4, "Carol", 50))).unwrap();
    assert_eq!(c.shots.shots.len(), 2);
    assert_eq!(c.shots.shots[0].state.x, 1);
    let s = &c.shots.shots[1];
    assert_eq!((s.state.x, s.state.y, s.state.dx, s.state.dy, s.state.lives), (50, 0, 1, 2, 3));
    // The color and the dirty flag stay.
    assert_eq!(s.color, Color::from_palette(6));
    assert!(!s.dirty);
}

#[test]
fn a_tick_applies_the_inbox_in_order() {
    let mut c = copy(Some("Alice"));
    let out = c.tick(vec![
        ClientBoundMessage::SetNameResponse { accepted: true },
        ClientBoundMessage::SetMap(TileMap { width: 1, height: 1, cells: vec![vec![true]] }),
        ClientBoundMessage::PlayerUpdate(state("Bob", 100, 12), Inputs::default()),
        ClientBoundMessage::ShotUpdate(shot_state(0, "Bob", 5)),
        ClientBoundMessage::PlayerUpdate(state("Bob", 200, 12), Inputs::default()),
    ]);
    assert!(matches!(out, Ok(None)));
    assert_eq!(c.map.map.cells, vec![vec![true]]);
    assert_eq!(c.players.players.len(), 1);
    assert_eq!(c.players.players[0].state.x, 200);
    assert_eq!(c.shots.shots[0].color, Color::from_palette(2));
}

#[test]
fn the_first_refusal_ends_the_tick() {
    let mut c = copy(Some("Alice"));
    let out = c.tick(vec![
        ClientBoundMessage::PlayerUpdate(state("Bob", 100, 12), Inputs::default()),
        ClientBoundMessage::SetNameResponse { accepted: false },
        ClientBoundMessage::PlayerUpdate(state("Carol", 100, 12), Inputs::default()),
    ]);
    assert!(matches!(out, Err(ClientError::NameTaken)));
    // What came before the refusal was applied, what came after was not.
    assert_eq!(c.players.players.len(), 1);
    assert_eq!(c.players.players[0].state.name, "Bob");
}

#[test]
fn dirty_inputs_are_reported_once() {
    let mut c = copy(Some("Alice"));
    let out = c
        .tick(vec![ClientBoundMessage::PlayerUpdate(state("Alice", 100, 12), running())])
        .unwrap();
    // A player seen for the first time is dirty.
    assert!(matches!(out, Some(ServerBoundMessage::UpdateInputs(i)) if i == running()));
    assert!(!c.players.players[0].dirty);
    assert!(matches!(c.tick(vec![]), Ok(None)));
    let local = c.local.as_mut().unwrap();
    local.event(
        &Event::Button { button: Button::Keyboard(Key::A), state: ButtonState::Press },
        &mut c.players,
    );
    let out = c.tick(vec![]).unwrap();
    match out {
        Some(ServerBoundMessage::UpdateInputs(i)) => {
            assert!(i.left);
            assert!(i.right);
            assert_eq!((i.mouse_x, i.mouse_y), (9, 8));
        }
        other => panic!("unexpected {:?}", other),
    }
    assert!(matches!(c.tick(vec![]), Ok(None)));
}

#[test]
fn only_the_local_player_is_reported() {
    let mut c = copy(Some("Alice"));
    let out = c
        .tick(vec![ClientBoundMessage::PlayerUpdate(state("Bob", 100, 12), running())])
        .unwrap();
    assert!(out.is_none());
    assert!(c.players.players[0].dirty);
    let mut watcher = copy(None);
    let out = watcher
        .tick(vec![ClientBoundMessage::PlayerUpdate(state("Alice", 100, 12), running())])
        .unwrap();
    assert!(out.is_none());
    assert!(watcher.players.players[0].dirty);
}

#[test]
fn the_client_ignores_events_other_than_ticks() {
    let mut c = copy(Some("Alice"));
    c.players.insert(Player::new("Alice".to_string(), 0, 0, Color::white()));
    for e in [
        Event::Other,
        Event::MouseCursor { x: 0, y: 0 },
        Event::Button { button: Button::Keyboard(Key::R), state: ButtonState::Press },
    ] {
        let inbox = vec![ClientBound { message: ClientBoundMessage::SetNameResponse { accepted: false } }];
        let out = c.client.event(&e, inbox, &mut c.players, &mut c.map, &mut c.shots, &mut c.local);
        assert!(matches!(out, Ok(None)));
        assert!(c.players.players[0].dirty);
    }
}

#[test]
fn host_and_client_agree_on_a_join() {
    let client_socket = Peer::V4 { ip: 0x0a00_0002, port: 5000 };
    let mut host_players = PlayerController::new();
    let mut host_shots = ShotController::new();
    let mut host_map = MapController::new(TileMap::new());
    let mut host_side = HostController::new();
    let mut c = copy(Some("Alice"));

    let join = ClientController::set_name(&host(), "Alice".to_string());
    let inbox = vec![
        ServerBound { message: ServerBoundMessage::Connect, player_name: None,
            source: client_socket },
        ServerBound { message: join.message, player_name: None, source: client_socket },
    ];
    let out = host_side.event(&TICK, inbox, &mut host_players, &mut host_shots, &mut host_map);
    let letters: Vec<ClientBoundMessage> = out
        .into_iter()
        .filter(|o| o.targets.contains(&client_socket))
        .map(|o| o.message)
        .collect();
    assert_eq!(letters.len(), 4);
    let upload = c.tick(letters).unwrap();
    assert_eq!(c.map.map.cells, host_map.map.cells);
    assert_eq!(c.players.players.len(), 1);
    assert_eq!(c.players.players[0].state.name, "Alice");
    assert_eq!(c.players.players[0].state.color, Color::from_palette(0));
    assert_eq!(c.players.players[0].state.x, host_players.players[0].state.x);
    assert!(matches!(upload, Some(ServerBoundMessage::UpdateInputs(i)) if i == Inputs::default()));
}

#[test]
fn the_client_listens_to_the_host_alone() {
    let client = ClientController::new(host());
    let entry = client.receive(host(), ClientBoundMessage::SetNameResponse { accepted: true });
    assert!(matches!(
        entry,
        Some(ClientBound { message: ClientBoundMessage::SetNameResponse { accepted: true } })
    ));
    let stranger = Peer::V4 { ip: 0x0a00_0001, port: 4001 };
    assert!(client.receive(stranger,
        ClientBoundMessage::SetNameResponse { accepted: true }).is_none());
    let other = Peer::V6 { ip: 0x0a00_0001, port: 4000, flowinfo: 0, scope_id: 0 };
    assert!(client.receive(other,
        ClientBoundMessage::SetNameResponse { accepted: false }).is_none());
}

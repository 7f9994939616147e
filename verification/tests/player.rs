use twodbattle::cell::Cell;
use twodbattle::color::Color;
use twodbattle::entity::{Bounds, Speed};
use twodbattle::input::{Button, ButtonState, Event, Key};
use twodbattle::map::TileMap;
use twodbattle::player::{Inputs, Player, FULL_LIVES, PLAYER_SIZE};
use twodbattle::player_controller::{
    PlayerController, AIR_FRICTION, DOUBLE_JUMP_SPEED, GRAVITY, GROUND_FRICTION, JUMP_SPEED,
    RUN_SPEED,
};
use twodbattle::shot::Shot;
use twodbattle::shot_controller::ShotController;

const TICK: u32 = 10_000;

fn player(name: &str, x: i64, y: i64) -> Player {
    Player::new(name.to_string(), x, y, Color::from_palette(0))
}

/// A map of 48 by 27 tiles of 40 units with a solid floor in row 26 and
/// the extra solid tiles `extra`.
fn arena(extra: &[(usize, usize)]) -> TileMap {
    let mut cells = vec![vec![false; 27]; 48];
    for column in cells.iter_mut() {
        column[26] = true;
    }
    for &(x, y) in extra {
        cells[x][y] = true;
    }
    TileMap { width: 48, height: 27, cells }
}

fn shot_at(x: i64, y: i64, id: u32, owner: &str) -> Shot {
    Shot::new(x, y, 0, 0, id, owner.to_string(), Color::white())
}

#[test]
fn new_player_is_at_rest_with_full_lives() {
    let p = player("Alice", 50_000, 60_000);
    assert_eq!(p.state.name, "Alice");
    assert_eq!(p.state.x, 50_000);
    assert_eq!(p.state.y, 60_000);
    assert_eq!(p.state.width, 20_000);
    assert_eq!(p.state.height, 20_000);
    assert_eq!(PLAYER_SIZE, 20_000);
    assert_eq!(p.state.color, Color { r: 0, g: 772, b: 244, a: 1000 });
    assert_eq!(p.state.dx, 0);
    assert_eq!(p.state.dy, 0);
    assert_eq!(p.state.lives, 20);
    assert_eq!(FULL_LIVES, 20);
    assert_eq!(p.inputs, Inputs::default());
    assert!(!p.on_ground);
    assert!(p.has_double_jump);
    assert!(p.dirty);
}

#[test]
fn default_inputs_are_idle() {
    let i = Inputs::default();
    assert_eq!(
        i,
        Inputs { left: false, right: false, jump: false, shoot: false, mouse_x: 0, mouse_y: 0 }
    );
}

#[test]
fn player_bounds_and_speed() {
    let mut p = player("Alice", 1, 2);
    p.state.dx = 3;
    p.state.dy = -4;
    assert_eq!(p.bounds(), [1, 2, 20_000, 20_000]);
    assert_eq!(Bounds::bounds(&p), [1, 2, 20_000, 20_000]);
    assert_eq!((p.x(), p.y(), p.w(), p.h()), (1, 2, 20_000, 20_000));
    assert_eq!((p.dx(), p.dy()), (3, -4));
}

#[test]
fn state_clone_is_equal() {
    let p = player("Alice", 1, 2);
    let s = p.state.clone();
    assert_eq!(s.name, "Alice");
    assert_eq!((s.x, s.y, s.width, s.height, s.dx, s.dy, s.lives), (1, 2, 20_000, 20_000, 0, 0,
        20));
    assert_eq!(s.color, p.state.color);
}

#[test]
fn the_constants_of_motion() {
    assert_eq!(RUN_SPEED, 300_000);
    assert_eq!(GROUND_FRICTION, 16);
    assert_eq!(AIR_FRICTION, 4);
    assert_eq!(GRAVITY, 1_000_000);
    assert_eq!(JUMP_SPEED, 805_000);
    assert_eq!(DOUBLE_JUMP_SPEED, 405_000);
}

#[test]
fn holding_right_runs_right() {
    let mut p = player("Alice", 0, 0);
    p.inputs.right = true;
    PlayerController::update(&mut p, TICK);
    assert_eq!(p.state.dx, 300_000);
    p.state.dx = -500_000;
    PlayerController::update(&mut p, TICK);
    assert_eq!(p.state.dx, 300_000);
}

#[test]
fn holding_left_runs_left() {
    let mut p = player("Alice", 0, 0);
    p.inputs.left = true;
    PlayerController::update(&mut p, TICK);
    assert_eq!(p.state.dx, -300_000);
    p.state.dx = 500_000;
    PlayerController::update(&mut p, TICK);
    assert_eq!(p.state.dx, -300_000);
}

#[test]
fn a_faster_player_is_not_slowed_by_steering() {
    let mut p = player("Alice", 0, 0);
    p.inputs.right = true;
    p.state.dx = 450_000;
    PlayerController::update(&mut p, TICK);
    assert_eq!(p.state.dx, 450_000);
    p.inputs.right = false;
    p.inputs.left = true;
    p.state.dx = -450_000;
    PlayerController::update(&mut p, TICK);
    assert_eq!(p.state.dx, -450_000);
}

#[test]
fn friction_on_the_ground_and_in_the_air() {
    let mut p = player("Alice", 0, 0);
    p.state.dx = 300_000;
    p.on_ground = true;
    PlayerController::update(&mut p, TICK);
    assert_eq!(p.state.dx, 252_000);
    p.state.dx = 300_000;
    p.on_ground = false;
    PlayerController::update(&mut p, TICK);
    assert_eq!(p.state.dx, 288_000);
}

#[test]
fn both_directions_held_is_friction() {
    let mut p = player("Alice", 0, 0);
    p.state.dx = -300_000;
    p.on_ground = true;
    p.inputs.left = true;
    p.inputs.right = true;
    PlayerController::update(&mut p, TICK);
    assert_eq!(p.state.dx, -252_000);
}

#[test]
fn grounded_player_without_input_comes_to_rest() {
    let mut p = player("Alice", 0, 0);
    p.state.dx = 300_000;
    let mut ticks = 0;
    while p.state.dx != 0 {
        let before = p.state.dx;
        p.on_ground = true;
        PlayerController::update(&mut p, 8333);
        assert!(0 <= p.state.dx && p.state.dx < before);
        ticks += 1;
    }
    assert_eq!(ticks, 78);
    p.on_ground = true;
    PlayerController::update(&mut p, 8333);
    assert_eq!(p.state.dx, 0);
}

#[test]
fn gravity_accelerates() {
    let mut p = player("Alice", 0, 0);
    PlayerController::update(&mut p, TICK);
    assert_eq!(p.state.dy, 10_000);
    PlayerController::update(&mut p, TICK);
    assert_eq!(p.state.dy, 20_000);
    PlayerController::update(&mut p, 8333);
    assert_eq!(p.state.dy, 28_333);
    assert_eq!(p.state.dx, 0);
    assert!(p.has_double_jump);
    assert!(!p.on_ground);
}

#[test]
fn jump_from_the_ground() {
    let mut p = player("Alice", 0, 0);
    p.on_ground = true;
    p.inputs.jump = true;
    PlayerController::update(&mut p, TICK);
    assert_eq!(p.state.dy, -805_000);
    assert!(!p.inputs.jump);
    assert!(p.has_double_jump);
    assert!(p.on_ground);
    // The trigger is consumed: the next tick is gravity again.
    PlayerController::update(&mut p, TICK);
    assert_eq!(p.state.dy, -795_000);
}

#[test]
fn double_jump_in_the_air() {
    let mut p = player("Alice", 0, 0);
    p.state.dy = 100_000;
    p.inputs.jump = true;
    PlayerController::update(&mut p, TICK);
    assert_eq!(p.state.dy, -405_000);
    assert!(!p.inputs.jump);
    assert!(!p.has_double_jump);
    // No third jump: the trigger stays set and gravity acts.
    p.inputs.jump = true;
    PlayerController::update(&mut p, TICK);
    assert_eq!(p.state.dy, -395_000);
    assert!(p.inputs.jump);
    assert!(!p.has_double_jump);
}

#[test]
fn a_jump_does_not_slow_a_rising_player() {
    let mut p = player("Alice", 0, 0);
    p.on_ground = true;
    p.inputs.jump = true;
    p.state.dy = -900_000;
    PlayerController::update(&mut p, TICK);
    assert_eq!(p.state.dy, -900_000);
    p.on_ground = false;
    p.inputs.jump = true;
    p.state.dy = -500_000;
    PlayerController::update(&mut p, TICK);
    assert_eq!(p.state.dy, -500_000);
    assert!(!p.has_double_jump);
}

#[test]
fn motion_integrates_the_velocity() {
    let mut p = player("Alice", 100_000, 200_000);
    p.state.dx = 300_000;
    p.state.dy = -805_000;
    PlayerController::motion(&mut p, TICK);
    assert_eq!(p.state.x, 103_000);
    assert_eq!(p.state.y, 191_950);
    PlayerController::motion(&mut p, 0);
    assert_eq!(p.state.x, 103_000);
    assert_eq!(p.state.y, 191_950);
}

#[test]
fn landing_puts_the_player_on_the_tile() {
    // The floor is row 26, at y = 1040 units.
    let map = arena(&[]);
    let mut shots = ShotController::new();
    let mut p = player("Alice", 100_000, 1_019_500);
    p.state.dy = 100_000;
    p.has_double_jump = false;
    PlayerController::process_collision(&mut p, &map, TICK, &mut shots);
    assert_eq!(p.state.y + p.state.height, 1_040_000);
    assert_eq!(p.state.y, 1_020_000);
    assert_eq!(p.state.dy, 0);
    assert!(p.on_ground);
    assert!(p.has_double_jump);
    PlayerController::motion(&mut p, TICK);
    assert_eq!(p.state.y + p.state.height, 1_040_000);
}

#[test]
fn hitting_a_ceiling_stops_the_rise_without_landing() {
    let map = arena(&[(2, 10)]);
    let mut shots = ShotController::new();
    // Tile (2, 10) spans x 80..120 and y 400..440 units.
    let mut p = player("Alice", 90_000, 441_000);
    p.state.dy = -805_000;
    p.on_ground = true;
    PlayerController::process_collision(&mut p, &map, TICK, &mut shots);
    assert_eq!(p.state.y, 441_000);
    assert_eq!(p.state.dy, 0);
    assert!(p.on_ground);
}

#[test]
fn running_into_a_wall_stops_the_run() {
    let map = arena(&[(5, 25)]);
    let mut shots = ShotController::new();
    // Tile (5, 25) spans x 200..240 and y 1000..1040 units.
    let mut p = player("Alice", 179_000, 1_020_000);
    p.state.dx = 300_000;
    p.on_ground = true;
    PlayerController::process_collision(&mut p, &map, TICK, &mut shots);
    assert_eq!(p.state.dx, 0);
    assert_eq!(p.state.x, 179_000);
    // Nothing was hit below, so the player counts as in the air.
    assert!(!p.on_ground);
}

#[test]
fn free_fall_is_in_the_air() {
    let map = arena(&[]);
    let mut shots = ShotController::new();
    let mut p = player("Alice", 100_000, 100_000);
    p.on_ground = true;
    p.state.dx = 300_000;
    p.state.dy = 50_000;
    PlayerController::process_collision(&mut p, &map, TICK, &mut shots);
    assert!(!p.on_ground);
    assert_eq!(p.state.dx, 300_000);
    assert_eq!(p.state.dy, 50_000);
    assert_eq!((p.state.x, p.state.y), (100_000, 100_000));
}

#[test]
fn falling_onto_a_corner_lands_and_stops_the_run() {
    let map = arena(&[(5, 20)]);
    let mut shots = ShotController::new();
    // Tile (5, 20) spans x 200..240 and y 800..840 units. The player is
    // above and left of it and moves down and right.
    let mut p = player("Alice", 179_000, 779_000);
    p.state.dx = 300_000;
    p.state.dy = 300_000;
    p.has_double_jump = false;
    PlayerController::process_collision(&mut p, &map, TICK, &mut shots);
    assert_eq!(p.state.dx, 0);
    assert_eq!(p.state.y, 780_000);
    assert_eq!(p.state.dy, 300_000);
    assert!(p.on_ground);
    assert!(p.has_double_jump);
}

#[test]
fn rising_past_a_corner_only_stops_the_run() {
    let map = arena(&[(5, 20)]);
    let mut shots = ShotController::new();
    // The player is below and left of the tile and moves up and right.
    let mut p = player("Alice", 179_000, 841_000);
    p.state.dx = 300_000;
    p.state.dy = -300_000;
    p.has_double_jump = false;
    PlayerController::process_collision(&mut p, &map, TICK, &mut shots);
    assert_eq!(p.state.dx, 0);
    assert_eq!(p.state.y, 841_000);
    assert_eq!(p.state.dy, -300_000);
    assert!(!p.on_ground);
    assert!(!p.has_double_jump);
}

#[test]
fn a_shot_of_another_player_wounds() {
    let map = arena(&[]);
    let mut shots = ShotController::new();
    shots.insert(shot_at(105_000, 105_000, 0, "Bob"));
    shots.insert(shot_at(500_000, 500_000, 1, "Bob"));
    let mut p = player("Alice", 100_000, 100_000);
    p.dirty = false;
    PlayerController::process_collision(&mut p, &map, TICK, &mut shots);
    assert_eq!(p.state.lives, 19);
    assert!(p.dirty);
    assert_eq!(shots.shots[0].state.lives, 0);
    assert_eq!(shots.shots[1].state.lives, 5);
}

#[test]
fn a_shot_that_misses_does_nothing() {
    let map = arena(&[]);
    let mut shots = ShotController::new();
    // The shot touches the player at the edge.
    shots.insert(shot_at(120_000, 100_000, 0, "Bob"));
    let mut p = player("Alice", 100_000, 100_000);
    p.dirty = false;
    PlayerController::process_collision(&mut p, &map, TICK, &mut shots);
    assert_eq!(p.state.lives, 20);
    assert!(!p.dirty);
    assert_eq!(shots.shots[0].state.lives, 5);
}

#[test]
fn the_own_shot_does_not_wound() {
    let map = arena(&[]);
    let mut shots = ShotController::new();
    shots.insert(shot_at(105_000, 105_000, 0, "Alice"));
    let mut p = player("Alice", 100_000, 100_000);
    p.dirty = false;
    PlayerController::process_collision(&mut p, &map, TICK, &mut shots);
    assert_eq!(p.state.lives, 20);
    assert!(!p.dirty);
    assert_eq!(shots.shots[0].state.lives, 5);
}

#[test]
fn every_overlapping_shot_costs_a_life_until_none_is_left() {
    let map = arena(&[]);
    let mut shots = ShotController::new();
    for id in 0..4 {
        shots.insert(shot_at(105_000, 105_000, id, "Bob"));
    }
    let mut p = player("Alice", 100_000, 100_000);
    p.state.lives = 3;
    PlayerController::process_collision(&mut p, &map, TICK, &mut shots);
    assert_eq!(p.state.lives, 0);
    assert_eq!(shots.shots[0].state.lives, 0);
    assert_eq!(shots.shots[1].state.lives, 0);
    assert_eq!(shots.shots[2].state.lives, 0);
    assert_eq!(shots.shots[3].state.lives, 5);
}

#[test]
fn a_tick_runs_steering_collision_and_motion() {
    let map = arena(&[]);
    let mut shots = ShotController::new();
    let mut players = PlayerController::new();
    let mut alice = player("Alice", 100_000, 1_019_500);
    alice.inputs.right = true;
    alice.state.dy = 90_000;
    players.insert(alice);
    players.event(&map, &mut shots, &Event::Update { dt: TICK });
    let p = &players.players[0];
    // Steering: dx = 300, dy = 90 + 10 units per second. The floor is hit
    // from above, the player lands on it and runs on.
    assert_eq!(p.state.dx, 300_000);
    assert_eq!(p.state.dy, 0);
    assert_eq!(p.state.y, 1_020_000);
    assert_eq!(p.state.x, 103_000);
    assert!(p.on_ground);
}

#[test]
fn a_player_without_lives_is_frozen() {
    let map = arena(&[]);
    let mut shots = ShotController::new();
    shots.insert(shot_at(105_000, 105_000, 0, "Bob"));
    let mut players = PlayerController::new();
    let mut alice = player("Alice", 100_000, 100_000);
    alice.state.lives = 0;
    alice.state.dx = 300_000;
    alice.inputs.right = true;
    alice.inputs.jump = true;
    alice.dirty = false;
    players.insert(alice);
    players.event(&map, &mut shots, &Event::Update { dt: TICK });
    let p = &players.players[0];
    assert_eq!((p.state.x, p.state.y, p.state.dx, p.state.dy), (100_000, 100_000, 300_000, 0));
    assert_eq!(p.state.lives, 0);
    assert!(p.inputs.jump);
    assert!(!p.dirty);
    assert_eq!(shots.shots[0].state.lives, 5);
}

#[test]
fn a_spent_shot_still_wounds_the_next_player_of_the_tick() {
    let map = arena(&[]);
    let mut shots = ShotController::new();
    shots.insert(shot_at(105_000, 105_000, 0, "Carol"));
    let mut players = PlayerController::new();
    players.insert(player("Alice", 100_000, 100_000));
    players.insert(player("Bob", 100_000, 100_000));
    players.event(&map, &mut shots, &Event::Update { dt: 0 });
    assert_eq!(players.players[0].state.lives, 19);
    assert_eq!(players.players[1].state.lives, 19);
    assert_eq!(shots.shots[0].state.lives, 0);
}

#[test]
fn pressing_r_gives_everyone_full_lives() {
    let map = arena(&[]);
    let mut shots = ShotController::new();
    let mut players = PlayerController::new();
    let mut alice = player("Alice", 100_000, 100_000);
    alice.state.lives = 0;
    alice.dirty = false;
    let mut bob = player("Bob", 200_000, 100_000);
    bob.state.lives = 7;
    players.insert(alice);
    players.insert(bob);
    let press = Event::Button { button: Button::Keyboard(Key::R), state: ButtonState::Press };
    players.event(&map, &mut shots, &press);
    assert_eq!(players.players[0].state.lives, 20);
    assert_eq!(players.players[1].state.lives, 20);
    assert!(!players.players[0].dirty);
    assert_eq!(players.players[0].state.x, 100_000);
}

#[test]
fn other_events_leave_the_players_alone() {
    let map = arena(&[]);
    let mut shots = ShotController::new();
    let mut players = PlayerController::new();
    let mut alice = player("Alice", 100_000, 100_000);
    alice.state.lives = 3;
    alice.state.dx = 5;
    players.insert(alice);
    for e in [
        Event::Other,
        Event::MouseCursor { x: 1, y: 2 },
        Event::Button { button: Button::Keyboard(Key::R), state: ButtonState::Release },
        Event::Button { button: Button::Keyboard(Key::A), state: ButtonState::Press },
    ] {
        players.event(&map, &mut shots, &e);
        assert_eq!(players.players[0].state.lives, 3);
        assert_eq!(players.players[0].state.x, 100_000);
        assert_eq!(players.players[0].state.dx, 5);
        assert_eq!(players.players[0].state.dy, 0);
    }
}

#[test]
fn insert_replaces_a_player_of_the_same_name() {
    let mut players = PlayerController::new();
    players.insert(player("Alice", 1, 1));
    players.insert(player("Bob", 2, 2));
    players.insert(player("Alice", 3, 3));
    assert_eq!(players.players.len(), 2);
    assert_eq!(players.players[0].state.name, "Alice");
    assert_eq!(players.players[0].state.x, 3);
    assert_eq!(players.players[1].state.name, "Bob");
    assert_eq!(players.find(&"Bob".to_string()), Some(1));
    assert_eq!(players.find(&"Alice".to_string()), Some(0));
    assert_eq!(players.find(&"alice".to_string()), None);
}

#[test]
fn free_color_is_the_first_unused_of_the_palette() {
    let mut players = PlayerController::new();
    assert_eq!(players.get_free_color(), Some(Color { r: 0, g: 772, b: 244, a: 1000 }));
    players.insert(Player::new("a".to_string(), 0, 0, Color::from_palette(0)));
    assert_eq!(players.get_free_color(), Some(Color { r: 1000, g: 204, b: 735, a: 1000 }));
    players.insert(Player::new("b".to_string(), 0, 0, Color::from_palette(2)));
    assert_eq!(players.get_free_color(), Some(Color::from_palette(1)));
    players.insert(Player::new("c".to_string(), 0, 0, Color::from_palette(1)));
    assert_eq!(players.get_free_color(), Some(Color { r: 274, g: 637, b: 1000, a: 1000 }));
    players.insert(Player::new("d".to_string(), 0, 0, Color::white()));
    assert_eq!(players.get_free_color(), Some(Color::from_palette(3)));
}

#[test]
fn no_color_is_free_once_all_are_taken() {
    let mut players = PlayerController::new();
    for i in 0..8 {
        assert_eq!(players.get_free_color(), Some(Color::from_palette(i)));
        players.insert(Player::new(format!("p{}", i), 0, 0, Color::from_palette(i)));
    }
    assert_eq!(players.get_free_color(), None);
}

#[test]
fn the_palette_has_eight_different_colors() {
    let colors: Vec<Color> = (0..8).map(Color::from_palette).collect();
    assert_eq!(colors[4], Color { r: 1000, g: 1000, b: 200, a: 1000 });
    assert_eq!(colors[5], Color { r: 38, g: 0, b: 764, a: 1000 });
    assert_eq!(colors[6], Color { r: 650, g: 33, b: 0, a: 1000 });
    assert_eq!(colors[7], Color { r: 254, g: 988, b: 1000, a: 1000 });
    for i in 0..8 {
        for j in 0..i {
            assert_ne!(colors[i], colors[j]);
        }
    }
    assert_eq!(Color::white(), Color { r: 1000, g: 1000, b: 1000, a: 1000 });
}

#[test]
fn tiles_are_what_players_collide_with() {
    let map = arena(&[(5, 20)]);
    let cells = map.all_cells();
    assert_eq!(cells.len(), 49);
    assert_eq!(cells[5], Cell { x: 200_000, y: 800_000, w: 40_000, h: 40_000, state: true });
    assert_eq!(cells[6], Cell { x: 200_000, y: 1_040_000, w: 40_000, h: 40_000, state: true });
}

#[test]
fn ground_friction_decays_at_least_geometrically_and_then_rests() {
    for (dx0, dt) in [
        (300_000i64, 8333u32),
        (-300_000, 10_000),
        (1_000_000, 62_500),
        (5, 1),
        (-800_000, 1000),
        (i64::MAX, 8333),
        (i64::MIN, 16_667),
    ] {
        let share = 1.0 - 16.0 * f64::from(dt) / 1_000_000.0;
        let mut p = player("Alice", 0, 0);
        p.on_ground = true;
        p.state.dx = dx0;
        let mut bound = (dx0 as f64).abs();
        let mut ticks = 0;
        // Until the bound is below a millionth of a unit per second.
        while bound >= 0.001 {
            let before = p.state.dx;
            PlayerController::update(&mut p, dt);
            bound *= share;
            ticks += 1;
            assert!((p.state.dx as f64).abs() <= bound * (1.0 + 1e-9) + 1e-9);
            assert!(p.state.dx.unsigned_abs() <= before.unsigned_abs());
            assert!(p.state.dx == 0 || (p.state.dx > 0) == (dx0 > 0));
        }
        assert!(ticks > 0);
        assert_eq!(p.state.dx, 0);
        for _ in 0..3 {
            PlayerController::update(&mut p, dt);
            assert_eq!(p.state.dx, 0);
        }
    }
}

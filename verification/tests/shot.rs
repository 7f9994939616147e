use twodbattle::cell::Cell;
use twodbattle::color::Color;
use twodbattle::entity::{Bounds, Speed};
use twodbattle::input::{Button, ButtonState, Event, Key};
use twodbattle::map::TileMap;
use twodbattle::player::Player;
use twodbattle::player_controller::PlayerController;
use twodbattle::shot::{Id, Shot, State, SHOT_LIVES, SHOT_SIZE};
use twodbattle::shot_controller::{
    fire, motion, process_collision, stays, ShotController, SHOT_SPEED, SPAWN_DISTANCE,
};

const TICK: u32 = 10_000;

fn arena(extra: &[(usize, usize)]) -> TileMap {
    let mut cells = vec![vec![false; 27]; 48];
    for column in cells.iter_mut() {
        column[26] = true;
    }
    for &(x, y) in extra {
        cells[x][y] = true;
    }
    TileMap { width: 48, height: 27, cells }
}

fn tile(gx: i64, gy: i64) -> Cell {
    Cell { x: gx * 40_000, y: gy * 40_000, w: 40_000, h: 40_000, state: true }
}

fn shooter(name: &str, x: i64, y: i64, mouse_x: i64, mouse_y: i64) -> Player {
    let mut p = Player::new(name.to_string(), x, y, Color::from_palette(3));
    p.inputs.mouse_x = mouse_x;
    p.inputs.mouse_y = mouse_y;
    p.inputs.shoot = true;
    p
}

fn flying(x: i64, y: i64, dx: i64, dy: i64) -> Shot {
    Shot::new(x, y, dx, dy, 7, "Bob".to_string(), Color::white())
}

#[test]
fn new_shot_has_five_lives_and_is_dirty() {
    let s = Shot::new(1, 2, 3, 4, 9, "Alice".to_string(), Color::from_palette(1));
    assert_eq!(s.state.id, Id { id: 9, owner: "Alice".to_string() });
    assert_eq!((s.state.x, s.state.y, s.state.dx, s.state.dy), (1, 2, 3, 4));
    assert_eq!(s.state.lives, 5);
    assert_eq!(SHOT_LIVES, 5);
    assert_eq!((s.w, s.h), (15_000, 15_000));
    assert_eq!(SHOT_SIZE, 15_000);
    assert_eq!(s.color, Color::from_palette(1));
    assert!(s.dirty);
}

#[test]
fn shot_from_state_keeps_the_state() {
    let state = State { id: Id { id: 3, owner: "Bob".to_string() }, x: 10, y: 20, dx: -1, dy: 1, lives: 2 };
    let s = Shot::from_state(state, Color::white());
    assert_eq!(s.state.id.id, 3);
    assert_eq!(s.state.id.owner, "Bob");
    assert_eq!((s.state.x, s.state.y, s.state.dx, s.state.dy, s.state.lives), (10, 20, -1, 1, 2));
    assert_eq!((s.w, s.h), (15_000, 15_000));
    assert_eq!(s.color, Color::white());
    assert!(s.dirty);
}

#[test]
fn shot_ids_compare_by_number_and_owner() {
    let a = Id { id: 1, owner: "Alice".to_string() };
    assert_eq!(a, Id { id: 1, owner: "Alice".to_string() });
    assert_ne!(a, Id { id: 2, owner: "Alice".to_string() });
    assert_ne!(a, Id { id: 1, owner: "Bob".to_string() });
    assert_eq!(a.clone(), a);
}

#[test]
fn shot_bounds_and_speed() {
    let s = flying(1, 2, 3, -4);
    assert_eq!(Bounds::bounds(&s), [1, 2, 15_000, 15_000]);
    assert_eq!((s.x(), s.y(), s.w(), s.h()), (1, 2, 15_000, 15_000));
    assert_eq!((s.dx(), s.dy()), (3, -4));
    let c = s.clone();
    assert_eq!(c.state.id, s.state.id);
    assert_eq!((c.state.x, c.state.y, c.state.lives, c.dirty), (1, 2, 5, true));
}

#[test]
fn a_shot_is_fired_toward_the_cursor() {
    assert_eq!(SHOT_SPEED, 800_000);
    assert_eq!(SPAWN_DISTANCE, 20_000);
    // The centre of the player is at (110, 110) units.
    let s = fire(&shooter("Alice", 100_000, 100_000, 310_000, 110_000), 4);
    assert_eq!((s.state.dx, s.state.dy), (800_000, 0));
    assert_eq!((s.state.x, s.state.y), (130_000, 110_000));
    assert_eq!(s.state.id, Id { id: 4, owner: "Alice".to_string() });
    assert_eq!(s.state.lives, 5);
    assert_eq!(s.color, Color::from_palette(3));
    assert!(s.dirty);
    // The shot starts twenty units from the centre of the player.
    assert_eq!(s.state.x - 110_000, 20_000);
    assert_eq!(s.state.y - 110_000, 0);
}

#[test]
fn a_shot_is_fired_upward() {
    let s = fire(&shooter("Alice", 100_000, 100_000, 110_000, 10_000), 0);
    assert_eq!((s.state.dx, s.state.dy), (0, -800_000));
    assert_eq!((s.state.x, s.state.y), (110_000, 90_000));
}

#[test]
fn a_shot_is_fired_along_a_diagonal() {
    let s = fire(&shooter("Alice", 100_000, 100_000, 410_000, 510_000), 0);
    assert_eq!((s.state.dx, s.state.dy), (480_000, 640_000));
    assert_eq!((s.state.x, s.state.y), (122_000, 126_000));
    let back = fire(&shooter("Alice", 100_000, 100_000, -190_000, -290_000), 0);
    assert_eq!((back.state.dx, back.state.dy), (-480_000, -640_000));
    assert_eq!((back.state.x, back.state.y), (98_000, 94_000));
}

#[test]
fn the_direction_is_rounded_toward_zero() {
    let s = fire(&shooter("Alice", 100_000, 100_000, 111_000, 111_000), 0);
    assert_eq!((s.state.dx, s.state.dy), (565_685, 565_685));
    assert_eq!((s.state.x, s.state.y), (110_000 + 14_142, 110_000 + 14_142));
}

#[test]
fn a_short_aim_is_as_exact_as_a_long_one() {
    // One sub-unit up and right of the centre, and a thousand units.
    let near = fire(&shooter("Alice", 100_000, 100_000, 110_001, 109_999), 0);
    let far = fire(&shooter("Alice", 100_000, 100_000, 1_110_000, -890_000), 0);
    assert_eq!((near.state.dx, near.state.dy), (565_685, -565_685));
    assert_eq!((far.state.dx, far.state.dy), (565_685, -565_685));
    assert_eq!((near.state.x, near.state.y), (124_142, 95_858));
    assert_eq!((far.state.x, far.state.y), (124_142, 95_858));
}

#[test]
fn the_speed_is_eight_hundred_units_to_rounding() {
    for (mx, my) in [
        (110_001, 110_000),
        (110_003, 110_004),
        (7_500, 107_500),
        (1_919_999, 3),
        (-5, 1_080_000),
        (110_000, 110_001),
        (123_456, 98_765),
    ] {
        let s = fire(&shooter("Alice", 100_000, 100_000, mx, my), 0);
        let (dx, dy) = (s.state.dx as i128, s.state.dy as i128);
        let speed = dx * dx + dy * dy;
        assert!(speed < 800_001 * 800_001);
        assert!((dx.abs() + 1) * (dx.abs() + 1) + (dy.abs() + 1) * (dy.abs() + 1) > 800_000 * 800_000);
        let (ox, oy) = ((s.state.x - 110_000) as i128, (s.state.y - 110_000) as i128);
        assert!(ox * ox + oy * oy < 20_001 * 20_001);
        assert!((ox.abs() + 1) * (ox.abs() + 1) + (oy.abs() + 1) * (oy.abs() + 1) > 20_000 * 20_000);
    }
    let s = fire(&shooter("Alice", 100_000, 100_000, 7_500, 107_500), 0);
    assert_eq!((s.state.dx, s.state.dy), (-799_762, -19_506));
    assert_eq!((s.state.x, s.state.y), (90_006, 109_513));
}

#[test]
fn with_the_cursor_on_the_centre_the_shot_goes_left() {
    let s = fire(&shooter("Alice", 100_000, 100_000, 110_000, 110_000), 0);
    assert_eq!((s.state.dx, s.state.dy), (-800_000, 0));
    assert_eq!((s.state.x, s.state.y), (90_000, 110_000));
}

#[test]
fn firing_at_the_far_end_of_the_numbers_does_not_overflow() {
    let s = fire(&shooter("Alice", i64::MIN, i64::MIN, i64::MAX, i64::MAX), 0);
    assert_eq!((s.state.dx, s.state.dy), (565_685, 565_685));
    assert_eq!(s.state.x, i64::MIN + 24_142);
    let t = fire(&shooter("Alice", i64::MAX, i64::MAX, i64::MIN, i64::MIN), 0);
    assert_eq!((t.state.dx, t.state.dy), (-565_685, -565_685));
    assert_eq!(t.state.x, i64::MAX - 4_142);
}

#[test]
fn a_shot_flies_straight_in_free_space() {
    let mut s = flying(100_000, 100_000, 800_000, -400_000);
    s.dirty = false;
    process_collision(&mut s, &[tile(20, 20)], TICK);
    assert_eq!((s.state.dx, s.state.dy, s.state.lives), (800_000, -400_000, 5));
    assert!(!s.dirty);
    motion(&mut s, TICK);
    assert_eq!((s.state.x, s.state.y), (108_000, 96_000));
}

#[test]
fn a_shot_bounces_off_a_wall() {
    // Tile (5, 2) spans x 200..240 and y 80..120 units.
    let mut s = flying(180_000, 90_000, 800_000, 0);
    s.dirty = false;
    process_collision(&mut s, &[tile(5, 2)], TICK);
    assert_eq!((s.state.dx, s.state.dy), (-800_000, 0));
    assert_eq!(s.state.lives, 4);
    assert!(s.dirty);
    assert_eq!((s.state.x, s.state.y), (180_000, 90_000));
    motion(&mut s, TICK);
    assert_eq!((s.state.x, s.state.y), (172_000, 90_000));
}

#[test]
fn a_shot_bounces_off_the_floor() {
    let mut s = flying(210_000, 60_000, 100_000, 800_000);
    process_collision(&mut s, &[tile(5, 2)], TICK);
    assert_eq!((s.state.dx, s.state.dy), (100_000, -800_000));
    assert_eq!(s.state.lives, 4);
}

#[test]
fn a_shot_bounces_off_two_walls_at_once() {
    let mut s = flying(180_000, 60_000, 800_000, 800_000);
    process_collision(&mut s, &[tile(5, 1), tile(4, 2)], TICK);
    assert_eq!((s.state.dx, s.state.dy), (-800_000, -800_000));
    assert_eq!(s.state.lives, 4);
}

#[test]
fn a_shot_bounces_back_from_a_corner() {
    let mut s = flying(180_000, 60_000, 800_000, 800_000);
    s.dirty = false;
    process_collision(&mut s, &[tile(5, 2)], TICK);
    assert_eq!((s.state.dx, s.state.dy), (-800_000, -800_000));
    assert_eq!(s.state.lives, 4);
    assert!(s.dirty);
}

#[test]
fn a_shot_stays_while_it_lives_inside_the_world() {
    assert!(stays(&flying(0, 0, 0, 0)));
    assert!(stays(&flying(-14_999, -14_999, 0, 0)));
    assert!(!stays(&flying(-15_000, 0, 0, 0)));
    assert!(!stays(&flying(0, -15_000, 0, 0)));
    assert!(stays(&flying(1_919_999, 1_079_999, 0, 0)));
    assert!(!stays(&flying(1_920_000, 500_000, 0, 0)));
    assert!(!stays(&flying(500_000, 1_080_000, 0, 0)));
    let mut spent = flying(500_000, 500_000, 0, 0);
    spent.state.lives = 0;
    assert!(!stays(&spent));
}

#[test]
fn sweep_removes_the_shots_that_left_play() {
    let mut shots = ShotController::new();
    for (id, x, lives) in [(0, 100_000, 5), (1, -20_000, 5), (2, 200_000, 0), (3, 300_000, 1)] {
        let mut s = Shot::new(x, 100_000, 0, 0, id, "Bob".to_string(), Color::white());
        s.state.lives = lives;
        shots.insert(s);
    }
    shots.next_id = 4;
    shots.sweep();
    assert_eq!(shots.shots.len(), 2);
    assert_eq!(shots.shots[0].state.id.id, 0);
    assert_eq!(shots.shots[1].state.id.id, 3);
    assert_eq!(shots.next_id, 4);
}

#[test]
fn insert_replaces_a_shot_of_the_same_identity() {
    let mut shots = ShotController::new();
    shots.insert(Shot::new(1, 0, 0, 0, 0, "Alice".to_string(), Color::white()));
    shots.insert(Shot::new(2, 0, 0, 0, 0, "Bob".to_string(), Color::white()));
    shots.insert(Shot::new(3, 0, 0, 0, 1, "Alice".to_string(), Color::white()));
    shots.insert(Shot::new(4, 0, 0, 0, 0, "Bob".to_string(), Color::white()));
    assert_eq!(shots.shots.len(), 3);
    assert_eq!(shots.shots[0].state.x, 1);
    assert_eq!(shots.shots[1].state.x, 4);
    assert_eq!(shots.shots[2].state.x, 3);
    assert_eq!(shots.find(&Id { id: 0, owner: "Bob".to_string() }), Some(1));
    assert_eq!(shots.find(&Id { id: 1, owner: "Bob".to_string() }), None);
}

#[test]
fn a_set_trigger_spawns_one_shot() {
    let map = arena(&[]);
    let mut players = PlayerController::new();
    players.insert(shooter("Alice", 100_000, 100_000, 310_000, 110_000));
    let mut shots = ShotController::new();
    shots.update(&map, &mut players);
    assert_eq!(shots.shots.len(), 1);
    assert_eq!(shots.next_id, 1);
    assert!(!players.players[0].inputs.shoot);
    let s = &shots.shots[0];
    assert_eq!(s.state.id, Id { id: 0, owner: "Alice".to_string() });
    assert_eq!((s.state.x, s.state.y, s.state.dx, s.state.dy), (130_000, 110_000, 800_000, 0));
    assert_eq!(s.color, Color::from_palette(3));
    // The trigger is consumed: nothing more is fired.
    shots.update(&map, &mut players);
    assert_eq!(shots.shots.len(), 1);
    assert_eq!(shots.next_id, 1);
}

#[test]
fn every_player_with_a_set_trigger_fires() {
    let map = arena(&[]);
    let mut players = PlayerController::new();
    players.insert(shooter("Alice", 100_000, 100_000, 310_000, 110_000));
    let mut idle = shooter("Bob", 300_000, 100_000, 0, 0);
    idle.inputs.shoot = false;
    players.insert(idle);
    let mut dead = shooter("Carol", 500_000, 100_000, 0, 0);
    dead.state.lives = 0;
    players.insert(dead);
    players.insert(shooter("Dave", 700_000, 100_000, 710_000, 910_000));
    let mut shots = ShotController::new();
    shots.next_id = 10;
    shots.update(&map, &mut players);
    assert_eq!(shots.shots.len(), 2);
    assert_eq!(shots.shots[0].state.id, Id { id: 10, owner: "Alice".to_string() });
    assert_eq!(shots.shots[1].state.id, Id { id: 11, owner: "Dave".to_string() });
    assert_eq!((shots.shots[1].state.dx, shots.shots[1].state.dy), (0, 800_000));
    assert_eq!(shots.next_id, 12);
    assert!(!players.players[0].inputs.shoot);
    assert!(!players.players[1].inputs.shoot);
    // A player without lives keeps its trigger.
    assert!(players.players[2].inputs.shoot);
    assert!(!players.players[3].inputs.shoot);
}

#[test]
fn a_shot_that_would_start_inside_a_tile_is_dropped() {
    // Tile (3, 2) spans x 120..160 and y 80..120 units; the shot would
    // start at (130, 110) units.
    let map = arena(&[(3, 2)]);
    let mut players = PlayerController::new();
    players.insert(shooter("Alice", 100_000, 100_000, 310_000, 110_000));
    let mut shots = ShotController::new();
    shots.update(&map, &mut players);
    assert!(shots.shots.is_empty());
    // The trigger and the sequence number are used up all the same.
    assert!(!players.players[0].inputs.shoot);
    assert_eq!(shots.next_id, 1);
}

#[test]
fn sequence_numbers_start_over_after_the_last() {
    let map = arena(&[]);
    let mut players = PlayerController::new();
    players.insert(shooter("Alice", 100_000, 100_000, 310_000, 110_000));
    players.insert(shooter("Bob", 100_000, 300_000, 310_000, 310_000));
    let mut shots = ShotController::new();
    shots.next_id = u32::MAX;
    shots.update(&map, &mut players);
    assert_eq!(shots.shots[0].state.id.id, u32::MAX);
    assert_eq!(shots.shots[1].state.id.id, 0);
    assert_eq!(shots.next_id, 1);
}

#[test]
fn a_tick_spawns_sweeps_and_moves() {
    let map = arena(&[]);
    let mut players = PlayerController::new();
    players.insert(shooter("Alice", 100_000, 100_000, 310_000, 110_000));
    let mut shots = ShotController::new();
    let mut gone = Shot::new(-50_000, 0, 800_000, 0, 90, "Bob".to_string(), Color::white());
    gone.dirty = false;
    shots.insert(gone);
    let mut spent = Shot::new(500_000, 500_000, 800_000, 0, 91, "Bob".to_string(), Color::white());
    spent.state.lives = 0;
    shots.insert(spent);
    shots.insert(Shot::new(500_000, 1_020_000, 0, 800_000, 92, "Bob".to_string(), Color::white()));
    shots.event(&map, &mut players, &Event::Update { dt: TICK });
    assert_eq!(shots.shots.len(), 2);
    // The shot above the floor bounced: it lost a life and keeps its place
    // for this tick, moving up.
    let bounced = &shots.shots[0];
    assert_eq!(bounced.state.id.id, 92);
    assert_eq!(bounced.state.lives, 4);
    assert_eq!(bounced.state.dy, -800_000);
    assert_eq!(bounced.state.y, 1_012_000);
    // The new shot flew for one tick.
    let fresh = &shots.shots[1];
    assert_eq!(fresh.state.id, Id { id: 0, owner: "Alice".to_string() });
    assert_eq!((fresh.state.x, fresh.state.y), (138_000, 110_000));
    assert_eq!(fresh.state.lives, 5);
    assert_eq!(shots.next_id, 1);
}

#[test]
fn a_shot_dies_after_five_bounces() {
    let map = arena(&[]);
    let mut players = PlayerController::new();
    let mut shots = ShotController::new();
    // Straight down onto the floor and up again into a ceiling.
    let mut cells = vec![vec![false; 27]; 48];
    for column in cells.iter_mut() {
        column[26] = true;
        column[24] = true;
    }
    let shaft = TileMap { width: 48, height: 27, cells };
    shots.insert(Shot::new(500_000, 1_010_000, 0, 800_000, 0, "Bob".to_string(), Color::white()));
    let mut bounces = 0;
    for _ in 0..100 {
        let before = shots.shots.first().map(|s| s.state.lives);
        shots.event(&shaft, &mut players, &Event::Update { dt: TICK });
        match (before, shots.shots.first().map(|s| s.state.lives)) {
            (Some(a), Some(b)) if b < a => {
                assert_eq!(b, a - 1);
                bounces += 1;
            }
            _ => {}
        }
        if shots.shots.is_empty() {
            break;
        }
    }
    assert!(shots.shots.is_empty());
    assert_eq!(bounces, 5);
    let _ = map;
}

#[test]
fn other_events_leave_the_shots_alone() {
    let map = arena(&[]);
    let mut players = PlayerController::new();
    players.insert(shooter("Alice", 100_000, 100_000, 310_000, 110_000));
    let mut shots = ShotController::new();
    shots.insert(Shot::new(-50_000, 0, 800_000, 0, 90, "Bob".to_string(), Color::white()));
    for e in [
        Event::Other,
        Event::MouseCursor { x: 1, y: 2 },
        Event::Button { button: Button::Keyboard(Key::R), state: ButtonState::Press },
    ] {
        shots.event(&map, &mut players, &e);
        assert_eq!(shots.shots.len(), 1);
        assert_eq!(shots.shots[0].state.x, -50_000);
        assert_eq!(shots.next_id, 0);
        assert!(players.players[0].inputs.shoot);
    }
}

#[test]
fn a_shot_that_loses_its_last_life_stays_for_that_tick() {
    let map = arena(&[]);
    let mut players = PlayerController::new();
    let mut shots = ShotController::new();
    let mut last = Shot::new(500_000, 1_020_000, 0, 800_000, 0, "Bob".to_string(), Color::white());
    last.state.lives = 1;
    last.dirty = false;
    shots.insert(last);
    shots.event(&map, &mut players, &Event::Update { dt: TICK });
    assert_eq!(shots.shots.len(), 1);
    assert_eq!(shots.shots[0].state.lives, 0);
    assert_eq!(shots.shots[0].state.dy, -800_000);
    assert!(shots.shots[0].dirty);
    shots.event(&map, &mut players, &Event::Update { dt: TICK });
    assert!(shots.shots.is_empty());
}

#[test]
fn a_hit_on_both_axes_costs_one_life() {
    // A floor below and a wall to the right, both reached in this tick.
    let map = arena(&[(13, 25)]);
    let mut players = PlayerController::new();
    let mut shots = ShotController::new();
    // Tile (13, 25) spans x 520..560 and y 1000..1040 units.
    shots.insert(Shot::new(500_000, 1_020_000, 800_000, 800_000, 0, "Bob".to_string(), Color::white()));
    shots.event(&map, &mut players, &Event::Update { dt: TICK });
    let s = &shots.shots[0];
    assert_eq!(s.state.lives, 4);
    assert_eq!((s.state.dx, s.state.dy), (-800_000, -800_000));
    assert_eq!((s.state.x, s.state.y), (492_000, 1_012_000));
    assert!(s.dirty);
}

#[test]
fn the_least_velocity_is_reversed_to_the_greatest() {
    // A wall that reaches as far left as a shot can fly in one tick.
    let wall = Cell { x: i64::MIN, y: 80_000, w: i64::MAX, h: 40_000, state: true };
    let mut s = flying(250_000, 90_000, i64::MIN, 0);
    process_collision(&mut s, &[wall], TICK);
    assert_eq!(s.state.dx, i64::MAX);
    assert_eq!(s.state.dy, 0);
    assert_eq!(s.state.lives, 4);
}

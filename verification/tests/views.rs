use twodbattle::battlefield_view::{BattlefieldView, BattlefieldViewSettings};
use twodbattle::cell::Cell;
use twodbattle::color::Color;
use twodbattle::map::TileMap;
use twodbattle::map_controller::MapController;
use twodbattle::map_view::{MapView, MapViewSettings};
use twodbattle::player::Player;
use twodbattle::player_controller::PlayerController;
use twodbattle::player_view::{PlayerSprite, PlayerView, OPACITY_PER_LIFE};
use twodbattle::shot::Shot;
use twodbattle::shot_controller::ShotController;
use twodbattle::shot_view::{ShotSprite, ShotView};

#[test]
fn views_are_made() {
    let _ = BattlefieldView::new(BattlefieldViewSettings::new());
    let _ = MapView::new(MapViewSettings::new());
    let _ = MapView::new(MapViewSettings::default());
    let _ = PlayerView::new();
    let _ = PlayerView::default();
    let _ = ShotView::new();
    let _ = ShotView::default();
}

#[test]
fn players_with_lives_are_drawn_in_their_color() {
    assert_eq!(OPACITY_PER_LIFE, 50);
    let mut players = PlayerController::new();
    let green = Color::from_palette(0);
    players.insert(Player::new("Alice".to_string(), 100_000, 200_000, green));
    let mut dead = Player::new("Bob".to_string(), 300_000, 200_000, Color::from_palette(1));
    dead.state.lives = 0;
    players.insert(dead);
    let mut hurt = Player::new("Carol".to_string(), 500_000, 200_000, Color::from_palette(2));
    hurt.state.lives = 5;
    players.insert(hurt);
    let sprites = PlayerView::new().sprites(&players);
    assert_eq!(
        sprites,
        vec![
            PlayerSprite {
                x: 100_000,
                y: 200_000,
                w: 20_000,
                h: 20_000,
                outline: green,
                body: Color { r: 0, g: 772, b: 244, a: 1000 },
            },
            PlayerSprite {
                x: 500_000,
                y: 200_000,
                w: 20_000,
                h: 20_000,
                outline: Color { r: 1000, g: 577, b: 94, a: 1000 },
                body: Color { r: 1000, g: 577, b: 94, a: 250 },
            },
        ]
    );
}

#[test]
fn no_players_no_sprites() {
    assert!(PlayerView::new().sprites(&PlayerController::new()).is_empty());
    assert!(ShotView::new().sprites(&ShotController::new()).is_empty());
}

#[test]
fn every_shot_is_drawn() {
    let mut shots = ShotController::new();
    shots.insert(Shot::new(1, 2, 3, 4, 0, "Alice".to_string(), Color::from_palette(4)));
    let mut spent = Shot::new(5, 6, 0, 0, 1, "Alice".to_string(), Color::white());
    spent.state.lives = 0;
    shots.insert(spent);
    assert_eq!(
        ShotView::new().sprites(&shots),
        vec![
            ShotSprite { x: 1, y: 2, w: 15_000, h: 15_000, color: Color::from_palette(4) },
            ShotSprite { x: 5, y: 6, w: 15_000, h: 15_000, color: Color::white() },
        ]
    );
}

#[test]
fn the_solid_tiles_are_drawn() {
    let map = TileMap { width: 2, height: 2, cells: vec![vec![false, true], vec![true, false]] };
    let controller = MapController::new(map);
    assert_eq!(
        MapView::new(MapViewSettings::new()).tiles(&controller),
        vec![
            Cell { x: 0, y: 540_000, w: 960_000, h: 540_000, state: true },
            Cell { x: 960_000, y: 0, w: 960_000, h: 540_000, state: true },
        ]
    );
}

#[test]
fn sprites_lie_in_the_world() {
    let controller = MapController::new(TileMap::new());
    for cell in MapView::new(MapViewSettings::new()).tiles(&controller) {
        assert!(0 <= cell.x && cell.x + cell.w <= 1_920_000);
        assert!(0 <= cell.y && cell.y + cell.h <= 1_080_000);
        assert_eq!((cell.w, cell.h), (40_000, 40_000));
        assert!(cell.state);
    }
}

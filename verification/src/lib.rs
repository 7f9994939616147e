//! The simulation and replication core of a multiplayer arena game:
//! players and shots move over a tile map in fixed-point arithmetic, and
//! a host and its clients keep their copies of the game in step.

pub mod battlefield_controller;
pub mod battlefield_view;
pub mod cell;
pub mod collision;
pub mod color;
pub mod entity;
pub mod input;
pub mod local_input_controller;
pub mod map;
pub mod map_controller;
pub mod map_generator;
pub mod map_view;
pub mod network;
pub mod player;
pub mod player_controller;
pub mod player_view;
pub mod shot;
pub mod shot_controller;
pub mod shot_view;
pub mod units;

pub use battlefield_view::{BattlefieldView, BattlefieldViewSettings};
pub use local_input_controller::LocalInputController;
pub use map::TileMap;
pub use map_controller::MapController;
pub use map_view::{MapView, MapViewSettings};
pub use player::Player;
pub use player_controller::PlayerController;
pub use player_view::PlayerView;
pub use shot::Shot;
pub use shot_controller::ShotController;
pub use shot_view::ShotView;

//! A falling-block puzzle core: piece geometry, collision detection, rotation
//! with kicks, locking, row clearing, scoring and the high-score table.
pub mod board;
pub mod game_controller;
pub mod highscore_controller;
pub mod input;
pub mod input_controller;
pub mod input_mem;
pub mod menu_controller;
pub mod point;
pub mod tet;


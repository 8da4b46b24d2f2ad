//! A falling-block puzzle engine: piece geometry, gravity, collision,
//! locking and bottom-row clearing, with every rule stated over a
//! mathematical model of the board and proved.

pub mod game;
pub mod shapes;
pub mod utils;

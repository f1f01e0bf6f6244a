//! Two turn-based puzzle engines on a 4×4 board: a sliding-tile puzzle and a
//! merge-tile game, behind one shared game contract.

pub mod board;
pub mod game;
pub mod line;
pub mod little15;
pub mod moves;
pub mod parity;
pub mod random;
pub mod super2048;
pub mod utils;

pub use game::Game;
pub use moves::Move;

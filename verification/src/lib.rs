//! The core mechanics of a 4x4 sliding-tile merge game: board state, move
//! legality, the slide/merge transform, random tile spawning, terminal-state
//! detection, and two autoplay strategies, all specified against a
//! mathematical model of the board and verified.

pub mod game;
pub mod laws;
pub mod rng;
pub mod sem;
pub mod solvers;
pub mod stats;
pub mod tile;

pub use game::GameState;
pub use sem::Direction;
pub use tile::Tile;

//! Sliding-tile puzzles on an n-by-n board: the board model, legal moves,
//! solvability by permutation parity, random generation, and two solvers
//! (depth-first search and A* with the Manhattan heuristic).
mod astar;
mod board;
pub mod closure;
mod dfs;
mod frontier;
mod game_mode;
mod generate;
pub mod grid;
mod keys;
pub mod moves;
pub mod parity;
mod random;
pub mod solvability;
mod state_set;
mod text;
mod tile;

pub use board::NBoard;
pub use game_mode::GameMode;
pub use tile::{Tile, TileType};

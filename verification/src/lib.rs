//! A verified single-player grid-clearing puzzle: a board seeded with
//! hidden mines that the player reveals cell by cell, and a probabilistic
//! solver that recommends the next move from the revealed information.

pub mod difficulty;
pub mod laws;
pub mod minesweeper;
pub mod model;
pub mod solver;

pub use minesweeper::{FieldState, GameState, Minesweeper, OpenResult, Position};
pub use solver::{Chance, MineChance, Solver, SolverStep};
pub use difficulty::GameDifficulty;

//! Standard board sizes, for front ends that offer preset games.

use vstd::prelude::*;

use crate::minesweeper::Minesweeper;
use crate::model::count_mines;

verus! {

/// The preset game difficulties.
#[derive(Debug, Clone, Copy, PartialEq, Eq, Structural)]
pub enum GameDifficulty {
    Easy,
    Medium,
    Hard,
}

/// The board parameters of a difficulty: width, height and mine count.
pub open spec fn difficulty_parameters(d: GameDifficulty) -> (usize, usize, usize) {
    match d {
        GameDifficulty::Easy => (9usize, 9usize, 10usize),
        GameDifficulty::Medium => (16usize, 16usize, 40usize),
        GameDifficulty::Hard => (30usize, 16usize, 99usize),
    }
}

impl GameDifficulty {
    /// The board parameters of this difficulty: width, height and mine
    /// count.
    pub fn parameters(&self) -> (r: (usize, usize, usize))
        ensures
            r == difficulty_parameters(*self),
    {
        match self {
            GameDifficulty::Easy => (9, 9, 10),
            GameDifficulty::Medium => (16, 16, 40),
            GameDifficulty::Hard => (30, 16, 99),
        }
    }

    /// Starts a fresh game of this difficulty.
    pub fn new_game(&self) -> (r: Minesweeper)
        ensures
            r.inv(),
            r@.width == difficulty_parameters(*self).0,
            r@.height == difficulty_parameters(*self).1,
            r@.state == crate::minesweeper::GameState::InProgress,
            count_mines(r@.cells) == difficulty_parameters(*self).2,
    {
        let (w, h, mines) = self.parameters();
        Minesweeper::new(w, h, mines)
    }
}

} // verus!

use minesweeper::{
    Chance, GameDifficulty, GameState, MineChance, Minesweeper, Position, Solver, SolverStep,
};

#[test]
fn fresh_board_uniform_chance_test() {
    // With nothing revealed there is no local information anywhere: every
    // cell reports the base rate, mines over cells.
    let mines: Vec<Position> = vec![(0, 0), (3, 4), (7, 2), (5, 5), (9, 9), (2, 8), (4, 1), (6, 7), (8, 3), (1, 6)];
    let ms = Minesweeper::with_mines(10, 10, &mines);
    let mut solver = Solver::new();
    let step = solver.solve_step(&ms);
    for y in 0..10 {
        for x in 0..10 {
            assert_eq!(
                solver.get_mine_chance((x, y)),
                MineChance::NoInformation(Chance { num: 10, den: 100 })
            );
        }
    }
    // With every guess equal, the first cell in row-major order wins.
    assert_eq!(step, SolverStep::Open((0, 0)));
}

#[test]
fn single_closed_neighbor_is_certain_mine_test() {
    // A revealed "1" whose only closed neighbor is unflagged: that
    // neighbor is a certain mine and the solver says to flag it.
    let mines: Vec<Position> = vec![(1, 0)];
    let mut ms = Minesweeper::with_mines(3, 1, &mines);
    ms.open((0, 0));
    assert_eq!(ms.game_state, GameState::InProgress);
    let mut solver = Solver::new();
    let step = solver.solve_step(&ms);
    assert_eq!(
        solver.get_mine_chance((1, 0)),
        MineChance::WithInformation(Chance { num: 1, den: 1 })
    );
    assert_eq!(step, SolverStep::Flag((1, 0)));
}

#[test]
fn zero_cell_clears_neighbors_test() {
    // A question mark blocks the cascade, leaving a revealed "0" with a
    // closed neighbor; that neighbor resolves to a certain zero and the
    // solver says to open it.
    let mines: Vec<Position> = vec![(2, 2)];
    let mut ms = Minesweeper::with_mines(3, 3, &mines);
    ms.flag((1, 1));
    ms.flag((1, 1));
    assert!(ms.is_questioned((1, 1)));
    ms.open((0, 0));
    assert_eq!(ms.game_state, GameState::InProgress);
    assert!(ms.is_open((0, 0)) && !ms.is_open((1, 1)));
    let mut solver = Solver::new();
    let step = solver.solve_step(&ms);
    assert_eq!(
        solver.get_mine_chance((1, 1)),
        MineChance::WithInformation(Chance { num: 0, den: 1 })
    );
    assert_eq!(step, SolverStep::Open((1, 1)));
}

#[test]
fn flags_covering_mines_clear_the_rest_test() {
    // With every mine flagged, the base rate drops to zero, and a cell
    // with no revealed neighbor still resolves to a certain open through
    // the uninformed scan.
    let mines: Vec<Position> = vec![(1, 0)];
    let mut ms = Minesweeper::with_mines(3, 1, &mines);
    ms.open((0, 0));
    ms.flag((1, 0));
    let mut solver = Solver::new();
    let step = solver.solve_step(&ms);
    assert_eq!(
        solver.get_mine_chance((2, 0)),
        MineChance::NoInformation(Chance { num: 0, den: 3 })
    );
    assert_eq!(step, SolverStep::Open((2, 0)));
}

#[test]
fn solver_no_candidates_test() {
    // Every cell open or flagged and the game still running: there is
    // nothing to recommend.
    let mines: Vec<Position> = vec![(1, 0)];
    let mut ms = Minesweeper::with_mines(2, 1, &mines);
    ms.flag((0, 0));
    ms.flag((1, 0));
    assert_eq!(ms.game_state, GameState::InProgress);
    let mut solver = Solver::new();
    assert_eq!(solver.solve_step(&ms), SolverStep::NoStep);
}

#[test]
fn solver_idle_after_game_ends_test() {
    let mines: Vec<Position> = vec![(0, 0)];
    let mut ms = Minesweeper::with_mines(2, 1, &mines);
    ms.open((0, 0));
    assert_eq!(ms.game_state, GameState::Loss);
    let mut solver = Solver::new();
    assert_eq!(solver.solve_step(&ms), SolverStep::NoStep);
}

#[test]
fn solver_prefers_informed_guess_test() {
    // One revealed "1" gives its five closed neighbors an informed
    // one-in-five estimate; far cells keep the uninformed base rate of
    // two in ten. The informed candidates take priority, and among equal
    // estimates the first in row-major order wins.
    let mines: Vec<Position> = vec![(0, 1), (4, 1)];
    let mut ms = Minesweeper::with_mines(5, 2, &mines);
    ms.open((1, 0));
    assert_eq!(ms.game_state, GameState::InProgress);
    let mut solver = Solver::new();
    let step = solver.solve_step(&ms);
    assert_eq!(
        solver.get_mine_chance((0, 0)),
        MineChance::WithInformation(Chance { num: 1, den: 5 })
    );
    assert_eq!(
        solver.get_mine_chance((4, 0)),
        MineChance::NoInformation(Chance { num: 2, den: 10 })
    );
    assert_eq!(step, SolverStep::Open((0, 0)));
}

#[test]
fn get_mine_chance_outside_grid_test() {
    let solver = Solver::new();
    assert_eq!(
        solver.get_mine_chance((3, 3)),
        MineChance::NoInformation(Chance { num: 0, den: 1 })
    );
}

#[test]
fn difficulty_parameters_test() {
    assert_eq!(GameDifficulty::Easy.parameters(), (9, 9, 10));
    assert_eq!(GameDifficulty::Medium.parameters(), (16, 16, 40));
    assert_eq!(GameDifficulty::Hard.parameters(), (30, 16, 99));
    let game = GameDifficulty::Easy.new_game();
    assert_eq!(game.width(), 9);
    assert_eq!(game.height(), 9);
    assert_eq!(game.game_state, GameState::InProgress);
}

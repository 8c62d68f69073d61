use minesweeper::{FieldState, GameState, Minesweeper, OpenResult, Position};

fn count_mined(ms: &Minesweeper, width: usize, height: usize) -> usize {
    let mut count = 0;
    for y in 0..height {
        for x in 0..width {
            if ms.is_mined((x, y)) {
                count += 1;
            }
        }
    }
    count
}

fn count_opened(ms: &Minesweeper, width: usize, height: usize) -> usize {
    let mut count = 0;
    for y in 0..height {
        for x in 0..width {
            if ms.is_open((x, y)) {
                count += 1;
            }
        }
    }
    count
}

#[test]
fn generation_test() {
    // Create minesweeper instance with known number of mines
    let num_mines = 5;
    let ms = Minesweeper::new(10, 10, num_mines);

    // Check the number of mines is correct
    println!("{:?}", ms);
    assert!(count_mined(&ms, 10, 10) == num_mines);
}

#[test]
fn play_test() {
    let mut ms = Minesweeper::new(10, 10, 10);

    ms.open((4, 4));
    ms.flag((5, 5));

    println!("{:?}", ms);
}

#[test]
fn bounds_test() {
    let ms = Minesweeper::new(10, 10, 10);
    assert!(ms.is_in_bounds((5, 5)) == true);
}

#[test]
fn generation_full_and_single_test() {
    // A fully mined board and a single forced mine: the sampler cannot
    // return anything but every cell, respectively the one cell.
    let full = Minesweeper::new(3, 3, 9);
    assert_eq!(count_mined(&full, 3, 3), 9);

    let single = Minesweeper::new(1, 1, 1);
    assert!(single.is_mined((0, 0)));
}

#[test]
fn bounds_edges_test() {
    let ms = Minesweeper::new(4, 3, 0);
    assert!(ms.is_in_bounds((0, 0)));
    assert!(ms.is_in_bounds((3, 2)));
    assert!(!ms.is_in_bounds((4, 0)));
    assert!(!ms.is_in_bounds((0, 3)));
}

#[test]
fn open_mine_loses_without_cascade_test() {
    // A mined center: opening it loses at once and reveals nothing else.
    let mines: Vec<Position> = vec![(1, 1)];
    let mut ms = Minesweeper::with_mines(3, 3, &mines);
    let r = ms.open((1, 1));
    assert_eq!(r, Some(OpenResult::Mine));
    assert_eq!(ms.game_state, GameState::Loss);
    assert_eq!(count_opened(&ms, 3, 3), 1);
    for y in 0..3 {
        for x in 0..3 {
            if (x, y) != (1, 1) {
                assert!(!ms.is_open((x, y)));
            }
        }
    }
}

#[test]
fn cascade_opens_zero_region_test() {
    // One mine in the corner: the far corner has no neighboring mines,
    // and opening it floods the whole safe region plus its border.
    let mines: Vec<Position> = vec![(2, 2)];
    let mut ms = Minesweeper::with_mines(3, 3, &mines);
    let r = ms.open((0, 0));
    assert_eq!(r, Some(OpenResult::NoMine(0)));
    assert_eq!(count_opened(&ms, 3, 3), 8);
    assert!(!ms.is_open((2, 2)));
    assert_eq!(ms.game_state, GameState::Win);
}

#[test]
fn open_reports_neighboring_mines_test() {
    let mines: Vec<Position> = vec![(1, 1)];
    let mut ms = Minesweeper::with_mines(2, 2, &mines);
    let r = ms.open((0, 0));
    assert_eq!(r, Some(OpenResult::NoMine(1)));
    assert_eq!(ms.game_state, GameState::InProgress);
}

#[test]
fn win_by_clearing_test() {
    // The hand-constructed three-by-three board with one mine: opening
    // all eight safe cells wins the game.
    let mines: Vec<Position> = vec![(1, 1)];
    let mut ms = Minesweeper::with_mines(3, 3, &mines);
    for y in 0..3 {
        for x in 0..3 {
            if (x, y) != (1, 1) {
                let r = ms.open((x, y));
                assert_eq!(r, Some(OpenResult::NoMine(1)));
            }
        }
    }
    assert_eq!(ms.game_state, GameState::Win);
}

#[test]
fn loss_keeps_cells_untouched_test() {
    // Opening the mine first loses and leaves every other cell closed.
    let mines: Vec<Position> = vec![(1, 1)];
    let mut ms = Minesweeper::with_mines(3, 3, &mines);
    ms.open((1, 1));
    assert_eq!(ms.game_state, GameState::Loss);
    assert_eq!(count_opened(&ms, 3, 3), 1);
}

#[test]
fn terminal_state_freezes_moves_test() {
    let mines: Vec<Position> = vec![(0, 0)];
    let mut ms = Minesweeper::with_mines(2, 2, &mines);
    ms.open((0, 0));
    assert_eq!(ms.game_state, GameState::Loss);
    // Any further open or flag is a no-op.
    assert_eq!(ms.open((1, 1)), None);
    assert!(!ms.is_open((1, 1)));
    ms.flag((1, 1));
    assert!(!ms.is_flagged((1, 1)));
    assert_eq!(ms.game_state, GameState::Loss);
}

#[test]
fn flag_cycle_test() {
    let mines: Vec<Position> = vec![(0, 0)];
    let mut ms = Minesweeper::with_mines(3, 3, &mines);
    let pos = (2, 2);
    assert!(!ms.is_flagged(pos) && !ms.is_questioned(pos));
    ms.flag(pos);
    assert!(ms.is_flagged(pos) && !ms.is_questioned(pos));
    ms.flag(pos);
    assert!(!ms.is_flagged(pos) && ms.is_questioned(pos));
    ms.flag(pos);
    assert!(!ms.is_flagged(pos) && !ms.is_questioned(pos));
    ms.flag(pos);
    assert!(ms.is_flagged(pos));
}

#[test]
fn flagged_cell_cannot_open_test() {
    let mines: Vec<Position> = vec![(0, 0)];
    let mut ms = Minesweeper::with_mines(3, 3, &mines);
    ms.flag((1, 1));
    assert_eq!(ms.open((1, 1)), None);
    assert!(!ms.is_open((1, 1)));
    // A questioned cell cannot be opened either.
    ms.flag((2, 2));
    ms.flag((2, 2));
    assert!(ms.is_questioned((2, 2)));
    assert_eq!(ms.open((2, 2)), None);
}

#[test]
fn opened_cell_cannot_flag_test() {
    let mines: Vec<Position> = vec![(0, 0)];
    let mut ms = Minesweeper::with_mines(3, 3, &mines);
    ms.open((2, 2));
    ms.flag((2, 2));
    assert!(!ms.is_flagged((2, 2)));
}

#[test]
fn neighbor_counts_test() {
    let mines: Vec<Position> = vec![(0, 0), (2, 0), (1, 2)];
    let ms = Minesweeper::with_mines(3, 3, &mines);
    assert_eq!(ms.neighboring_mines((1, 1)), 3);
    assert_eq!(ms.neighboring_mines((1, 0)), 2);
    assert_eq!(ms.neighboring_mines((0, 2)), 1);
    assert_eq!(ms.neighboring_mines((2, 2)), 1);
    assert_eq!(ms.neighboring_closed_fields((1, 1)), 8);
    assert_eq!(ms.neighboring_closed_fields((0, 0)), 3);
    assert_eq!(ms.neighboring_flags((1, 1)), 0);
}

#[test]
fn neighbor_iter_test() {
    let mines: Vec<Position> = vec![];
    let ms = Minesweeper::with_mines(3, 3, &mines);
    let corner = ms.neighboring_fields_iter((0, 0));
    assert_eq!(corner, vec![(0, 1), (1, 0), (1, 1)]);
    let center = ms.neighboring_fields_iter((1, 1));
    assert_eq!(
        center,
        vec![(0, 0), (0, 1), (0, 2), (1, 0), (1, 2), (2, 0), (2, 1), (2, 2)]
    );
}

#[test]
fn remaining_mines_test() {
    let mines: Vec<Position> = vec![(0, 0), (1, 0)];
    let mut ms = Minesweeper::with_mines(3, 3, &mines);
    assert_eq!(ms.remaining_mines(), 2);
    ms.flag((2, 2));
    assert_eq!(ms.remaining_mines(), 1);
    ms.flag((2, 1));
    assert_eq!(ms.remaining_mines(), 0);
    // The counter is an absolute difference: it never underflows.
    ms.flag((2, 0));
    assert_eq!(ms.remaining_mines(), 1);
}

#[test]
fn field_state_test() {
    let mines: Vec<Position> = vec![(0, 0), (1, 0)];
    let mut ms = Minesweeper::with_mines(3, 3, &mines);
    assert_eq!(ms.get_field_state((0, 0)), FieldState::Unknown);
    ms.flag((0, 0));
    assert_eq!(ms.get_field_state((0, 0)), FieldState::Flagged);
    ms.flag((2, 0));
    ms.flag((2, 0));
    assert_eq!(ms.get_field_state((2, 0)), FieldState::Question);
    ms.open((1, 1));
    assert_eq!(ms.get_field_state((1, 1)), FieldState::Open(2));
    // Mines stay hidden while the game runs.
    assert_eq!(ms.get_field_state((1, 0)), FieldState::Unknown);
    // Detonate: the full picture is exposed.
    ms.flag((2, 2));
    ms.open((1, 0));
    assert_eq!(ms.game_state, GameState::Loss);
    assert_eq!(ms.get_field_state((1, 0)), FieldState::MineDetonated);
    assert_eq!(ms.get_field_state((0, 0)), FieldState::MineRevealed);
    assert_eq!(ms.get_field_state((2, 2)), FieldState::NoMine);
    assert_eq!(ms.get_field_state((1, 1)), FieldState::Open(2));
    // Out of bounds shows as unknown.
    assert_eq!(ms.get_field_state((9, 9)), FieldState::Unknown);
}

#[test]
fn predicates_out_of_bounds_test() {
    let mines: Vec<Position> = vec![(0, 0)];
    let ms = Minesweeper::with_mines(2, 2, &mines);
    assert!(!ms.is_mined((5, 5)));
    assert!(!ms.is_open((5, 5)));
    assert!(!ms.is_flagged((5, 5)));
    assert!(!ms.is_questioned((5, 5)));
}

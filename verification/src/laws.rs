//! The laws of the game and of the solver, stated over the models that
//! the executable contracts use and proved once and for all.

use vstd::prelude::*;

use crate::minesweeper::GameState;
use crate::model::{
    count_closed, count_flags, count_mines, lemma_count_bounds, lemma_count_closed_update,
    BoardModel, Cell, Mark,
};
use crate::solver::{
    better_guess, cert_at, chance_at, chance_model, find_cert, guess_candidate, has_info,
    scan_guess, scan_model, select_model, total_cells, Chance, MineChance, SolverStep,
};

verus! {

/// Revealing a mined cell loses the game at once and reveals nothing
/// else: the board afterwards differs from the board before in that one
/// cell alone, and its state is `Loss`.
pub proof fn lemma_open_mine_loses(m: BoardModel, x: int, y: int)
    requires
        m.inv(),
        m.openable(x, y),
        m.mined(x, y),
    ensures
        m.open_model(x, y).state == GameState::Loss,
        m.open_model(x, y).cells[m.idx(x, y)] == (Cell { opened: true, ..m.cell(x, y) }),
        forall|j: int|
            0 <= j < m.cells.len() && j != m.idx(x, y)
                ==> #[trigger] m.open_model(x, y).cells[j] == m.cells[j],
        m.open_model(x, y).width == m.width,
        m.open_model(x, y).height == m.height,
{
    m.lemma_idx_bounds(x, y);
}

/// Once the game has left `InProgress`, both mutators are no-ops: the
/// board is returned unchanged and `open` reports nothing.
pub proof fn lemma_terminal_moves_frozen(m: BoardModel, x: int, y: int)
    requires
        m.state != GameState::InProgress,
    ensures
        m.open_model(x, y) == m,
        m.flag_model(x, y) == m,
        m.open_result(x, y) is None,
{
}

/// On any board with at least one safe cell, the game is won exactly
/// when the revealed positions are the grid minus the mined positions.
/// (A board whose every cell is mined satisfies that equation vacuously
/// at creation yet starts `InProgress`, so it is excluded.)
pub proof fn lemma_win_iff_cleared(m: BoardModel)
    requires
        m.inv(),
        m.safe_exists(),
    ensures
        m.state == GameState::Win <==> m.opened_positions() == m.grid_positions().difference(
            m.mined_positions(),
        ),
{
    if m.state == GameState::Win {
        assert forall|p: (int, int)|
            #[trigger] m.opened_positions().contains(p) == m.grid_positions().difference(
                m.mined_positions(),
            ).contains(p) by {
            if m.in_bounds(p.0, p.1) {
                m.lemma_idx_bounds(p.0, p.1);
                let j = m.idx(p.0, p.1);
                if m.cells[j].mined && m.cells[j].opened {
                    assert(m.loss_cond());
                }
                assert(!m.cells[j].mined ==> m.cells[j].opened);
            }
        }
        assert(m.opened_positions() =~= m.grid_positions().difference(m.mined_positions()));
    } else {
        // The invariant pins the other direction down: with a safe cell
        // on the board, a state other than `Win` means the win condition
        // fails or a mine is revealed, and either breaks the equation.
        assert(!(m.win_cond() && !m.loss_cond()));
        if m.loss_cond() {
            let j = choose|j: int|
                0 <= j < m.cells.len() && #[trigger] m.cells[j].mined && m.cells[j].opened;
            m.lemma_idx_inverse(j);
            let p = (j % m.width, j / m.width);
            assert(m.opened_positions().contains(p));
            assert(!m.grid_positions().difference(m.mined_positions()).contains(p));
            assert(m.opened_positions() != m.grid_positions().difference(m.mined_positions()));
        } else {
            let j = choose|j: int|
                0 <= j < m.cells.len() && !(#[trigger] m.cells[j].mined) && !m.cells[j].opened;
            m.lemma_idx_inverse(j);
            let p = (j % m.width, j / m.width);
            assert(!m.opened_positions().contains(p));
            assert(m.grid_positions().difference(m.mined_positions()).contains(p));
            assert(m.opened_positions() != m.grid_positions().difference(m.mined_positions()));
        }
    }
}

/// On a running board with a safe cell somewhere, three flag calls on a
/// fixed closed in-bounds position cycle its annotation all the way
/// around and return the board exactly as it was. (On a board of mines
/// alone the first flag wins the game and freezes the cycle.)
pub proof fn lemma_flag_cycles(m: BoardModel, x: int, y: int)
    requires
        m.inv(),
        m.state == GameState::InProgress,
        m.safe_exists(),
        m.in_bounds(x, y),
        !m.opened(x, y),
    ensures
        m.flag_model(x, y).flag_model(x, y).flag_model(x, y) == m,
{
    m.lemma_idx_bounds(x, y);
    let i = m.idx(x, y);
    assert(!m.loss_cond());
    assert(!(m.win_cond() && !m.loss_cond()));
    let m1 = m.flag_model(x, y);
    // A mark change never touches what is revealed or mined, so the win
    // condition cannot spring into being and the state stays running.
    lemma_mark_update_keeps_win(m, x, y, Mark::Flagged);
    lemma_mark_update_keeps_win(m, x, y, Mark::Questioned);
    lemma_mark_update_keeps_win(m, x, y, Mark::Unmarked);
    match m.cell(x, y).mark {
        Mark::Unmarked => {
            assert(m1 == m.set_mark(x, y, Mark::Flagged));
            let m2 = m1.flag_model(x, y);
            assert(m2 == m1.set_mark(x, y, Mark::Questioned));
            let m3 = m2.flag_model(x, y);
            assert(m3 == m2.set_mark(x, y, Mark::Unmarked));
            assert(m3.cells =~= m.cells);
            assert(m3 == m);
        },
        Mark::Flagged => {
            assert(m1 == m.set_mark(x, y, Mark::Questioned));
            let m2 = m1.flag_model(x, y);
            assert(m2 == m1.set_mark(x, y, Mark::Unmarked));
            lemma_mark_update_keeps_win(m1, x, y, Mark::Unmarked);
            lemma_mark_update_keeps_win(m2, x, y, Mark::Flagged);
            let m3 = m2.flag_model(x, y);
            assert(m3 == m2.set_mark(x, y, Mark::Flagged));
            assert(m3.cells =~= m.cells);
            assert(m3 == m);
        },
        Mark::Questioned => {
            assert(m1 == m.set_mark(x, y, Mark::Unmarked));
            lemma_mark_update_keeps_win(m1, x, y, Mark::Flagged);
            let m2 = m1.flag_model(x, y);
            assert(m2 == m1.set_mark(x, y, Mark::Flagged));
            let m3 = m2.flag_model(x, y);
            assert(m3 == m2.set_mark(x, y, Mark::Questioned));
            assert(m3.cells =~= m.cells);
            assert(m3 == m);
        },
    }
}

/// Changing a cell's annotation leaves the win condition as it was.
proof fn lemma_mark_update_keeps_win(m: BoardModel, x: int, y: int, mk: Mark)
    requires
        m.wf(),
        m.in_bounds(x, y),
    ensures
        m.set_mark(x, y, mk).win_cond() == m.win_cond(),
{
    m.lemma_idx_bounds(x, y);
    let mm = m.set_mark(x, y, mk);
    assert(forall|j: int|
        0 <= j < m.cells.len() ==> (#[trigger] mm.cells[j]).opened == m.cells[j].opened
            && mm.cells[j].mined == m.cells[j].mined);
    if m.win_cond() {
        assert forall|j: int|
            0 <= j < mm.cells.len() && !(#[trigger] mm.cells[j]).mined
            implies mm.cells[j].opened by {
            assert(mm.cells[j].mined == m.cells[j].mined);
        }
    }
    if mm.win_cond() {
        assert forall|j: int|
            0 <= j < m.cells.len() && !(#[trigger] m.cells[j]).mined
            implies m.cells[j].opened by {
            assert(mm.cells[j].mined == m.cells[j].mined);
        }
    }
}

/// A cell newly revealed by a move: revealed now, not revealed on the
/// board the move started from.
pub open spec fn newly_opened(m: BoardModel, base: BoardModel, px: int, py: int) -> bool {
    m.in_bounds(px, py) && m.opened(px, py) && !base.opened(px, py)
}

/// The cascade condition at a cell: its flags account for all its mines
/// (in particular, a cell with no neighboring mines and no flags).
pub open spec fn cascade_trigger(m: BoardModel, px: int, py: int) -> bool {
    m.nbr_mines(px, py) == m.nbr_flags(px, py)
}

/// Every closed, unannotated in-bounds neighbor of the cell has been
/// revealed.
pub open spec fn neighbors_cleared(m: BoardModel, px: int, py: int) -> bool {
    forall|nx: int, ny: int|
        m.in_bounds(nx, ny) && BoardModel::adjacent(px, py, nx, ny) && (#[trigger] m.cell(
            nx,
            ny,
        )).mark == Mark::Unmarked ==> m.opened(nx, ny)
}

/// The flood has settled: every cell the move revealed whose flags
/// account for all its mines has had all its unannotated neighbors
/// revealed in turn. Over a region of zero-count cells this is exactly
/// "the entire connected zero region plus its bordering numbered cells".
pub open spec fn saturated(m: BoardModel, base: BoardModel) -> bool {
    forall|px: int, py: int|
        #[trigger] newly_opened(m, base, px, py) && cascade_trigger(m, px, py)
            ==> neighbors_cleared(m, px, py)
}

/// The promise the cascade's work stack keeps: each unannotated
/// neighbor of the cell is either already revealed or still on the
/// stack.
spec fn promised(m: BoardModel, stack: Seq<crate::minesweeper::Position>, px: int, py: int) -> bool {
    forall|nx: int, ny: int|
        m.in_bounds(nx, ny) && BoardModel::adjacent(px, py, nx, ny) && (#[trigger] m.cell(
            nx,
            ny,
        )).mark == Mark::Unmarked ==> m.opened(nx, ny) || stack.contains(
            ((nx as usize), (ny as usize)),
        )
}

/// A position other than the stack's top keeps its place when the top
/// is popped.
proof fn lemma_contains_after_pop(stack: Seq<crate::minesweeper::Position>, q: crate::minesweeper::Position)
    requires
        stack.len() > 0,
        stack.contains(q),
        q != stack.last(),
    ensures
        stack.drop_last().contains(q),
{
    let i = choose|i: int| 0 <= i < stack.len() && stack[i] == q;
    assert(stack.drop_last()[i] == q);
}

/// The invariant of the flood: if every cell revealed so far whose
/// flags account for its mines has its unannotated neighbors revealed
/// or promised on the stack, then once the stack is discharged (and no
/// mine was hit) the board is saturated.
proof fn lemma_cascade_saturation(
    m: BoardModel,
    stack: Seq<crate::minesweeper::Position>,
    base: BoardModel,
)
    requires
        m.wf(),
        m.state == GameState::InProgress || m.state == GameState::Loss,
        m.state == GameState::Loss <==> m.loss_cond(),
        forall|j: int|
            0 <= j < m.cells.len() && (#[trigger] m.cells[j]).opened ==> m.cells[j].mark
                == Mark::Unmarked,
        base.width == m.width,
        base.height == m.height,
        base.cells.len() == m.cells.len(),
        forall|j: int|
            0 <= j < m.cells.len() && (#[trigger] base.cells[j]).opened ==> m.cells[j].opened,
        forall|px: int, py: int|
            #[trigger] newly_opened(m, base, px, py) && cascade_trigger(m, px, py) ==> promised(
                m,
                stack,
                px,
                py,
            ),
    ensures
        BoardModel::cascade(m, stack).state == GameState::InProgress ==> saturated(
            BoardModel::cascade(m, stack),
            base,
        ),
    decreases count_closed(m.cells), stack.len(),
{
    lemma_count_bounds(m.cells);
    let m2 = BoardModel::cascade(m, stack);
    if stack.len() == 0 {
        assert(m2 == m);
        if m.state == GameState::InProgress {
            assert forall|px: int, py: int|
                #[trigger] newly_opened(m2, base, px, py) && cascade_trigger(m2, px, py)
                implies neighbors_cleared(m2, px, py) by {
                assert(promised(m, stack, px, py));
                assert forall|nx: int, ny: int|
                    m2.in_bounds(nx, ny) && BoardModel::adjacent(px, py, nx, ny)
                        && (#[trigger] m2.cell(nx, ny)).mark == Mark::Unmarked
                    implies m2.opened(nx, ny) by {
                    assert(!stack.contains(((nx as usize), (ny as usize))));
                }
            }
        }
    } else {
        let p = stack.last();
        let rest = stack.drop_last();
        let px = p.0 as int;
        let py = p.1 as int;
        if m.state == GameState::Loss {
            BoardModel::lemma_cascade_props(m, stack);
            assert(m2.state == GameState::Loss);
        } else if !m.cascade_eligible(px, py) {
            // The popped position is revealed or annotated, so every
            // promise it carried is already honored; the rest of the
            // stack carries the others.
            assert forall|qx: int, qy: int|
                #[trigger] newly_opened(m, base, qx, qy) && cascade_trigger(m, qx, qy)
                implies promised(m, rest, qx, qy) by {
                assert forall|nx: int, ny: int|
                    m.in_bounds(nx, ny) && BoardModel::adjacent(qx, qy, nx, ny)
                        && (#[trigger] m.cell(nx, ny)).mark == Mark::Unmarked
                    implies m.opened(nx, ny) || rest.contains(((nx as usize), (ny as usize))) by {
                    let q = ((nx as usize), (ny as usize));
                    if !m.opened(nx, ny) && stack.contains(q) {
                        if q == p {
                            assert(px == nx && py == ny);
                            assert(m.cascade_eligible(px, py));
                        } else {
                            lemma_contains_after_pop(stack, q);
                        }
                    }
                }
            }
            lemma_cascade_saturation(m, rest, base);
        } else {
            m.lemma_idx_bounds(px, py);
            let i = m.idx(px, py);
            lemma_count_closed_update(m.cells, i, Cell { opened: true, ..m.cell(px, py) });
            let m1 = m.open_cell(px, py);
            lemma_count_bounds(m1.cells);
            assert(forall|j: int|
                0 <= j < m.cells.len() && j != i ==> #[trigger] m1.cells[j] == m.cells[j]);
            // Counts never change while the flood runs: mines and
            // annotations are untouched.
            assert forall|qx: int, qy: int|
                #[trigger] cascade_trigger(m1, qx, qy) == cascade_trigger(m, qx, qy) by {
                BoardModel::lemma_counts_stable(m, m1, qx, qy);
            }
            if m.mined(px, py) {
                let ml = m1.with_state(GameState::Loss);
                assert(ml.loss_cond()) by {
                    assert(0 <= i < ml.cells.len() && ml.cells[i].mined && ml.cells[i].opened);
                }
                BoardModel::lemma_cascade_props(ml, rest);
                assert(m2.state == GameState::Loss);
            } else {
                assert(m1.loss_cond() <==> m.loss_cond()) by {
                    if m1.loss_cond() {
                        let j = choose|j: int|
                            0 <= j < m1.cells.len() && #[trigger] m1.cells[j].mined
                                && m1.cells[j].opened;
                        assert(j != i);
                        assert(m.cells[j].mined && m.cells[j].opened);
                    }
                    if m.loss_cond() {
                        let j = choose|j: int|
                            0 <= j < m.cells.len() && #[trigger] m.cells[j].mined
                                && m.cells[j].opened;
                        assert(j != i);
                        assert(m1.cells[j].mined && m1.cells[j].opened);
                    }
                }
                if m.nbr_mines(px, py) == m.nbr_flags(px, py) {
                    let pushed = rest + m.push_seq(px, py);
                    assert forall|qx: int, qy: int|
                        #[trigger] newly_opened(m1, base, qx, qy) && cascade_trigger(m1, qx, qy)
                        implies promised(m1, pushed, qx, qy) by {
                        assert forall|nx: int, ny: int|
                            m1.in_bounds(nx, ny) && BoardModel::adjacent(qx, qy, nx, ny)
                                && (#[trigger] m1.cell(nx, ny)).mark == Mark::Unmarked
                            implies m1.opened(nx, ny) || pushed.contains(
                            ((nx as usize), (ny as usize))) by {
                            let q = ((nx as usize), (ny as usize));
                            m1.lemma_idx_bounds(nx, ny);
                            if qx == px && qy == py {
                                // The freshly revealed cell: its whole
                                // neighborhood was just pushed.
                                m.lemma_push_seq_contains(px, py, nx, ny);
                                let w = choose|w: int|
                                    0 <= w < m.push_seq(px, py).len() && m.push_seq(px, py)[w]
                                        == q;
                                assert(pushed[rest.len() + w] == q);
                            } else {
                                // A cell revealed earlier: its promise
                                // carries over, or was just honored by
                                // revealing the popped position.
                                m.lemma_idx_bounds(qx, qy);
                                if m.idx(qx, qy) == i {
                                    m.lemma_idx_injective(qx, qy, px, py);
                                }
                                assert(newly_opened(m, base, qx, qy));
                                assert(cascade_trigger(m, qx, qy));
                                assert(promised(m, stack, qx, qy));
                                assert(m.cell(nx, ny).mark == Mark::Unmarked);
                                if !m.opened(nx, ny) && stack.contains(q) {
                                    if q == p {
                                        assert(m1.opened(nx, ny));
                                    } else {
                                        lemma_contains_after_pop(stack, q);
                                        let w = choose|w: int|
                                            0 <= w < rest.len() && rest[w] == q;
                                        assert(pushed[w] == q);
                                    }
                                }
                            }
                        }
                    }
                    lemma_cascade_saturation(m1, pushed, base);
                } else {
                    assert forall|qx: int, qy: int|
                        #[trigger] newly_opened(m1, base, qx, qy) && cascade_trigger(m1, qx, qy)
                        implies promised(m1, rest, qx, qy) by {
                        assert forall|nx: int, ny: int|
                            m1.in_bounds(nx, ny) && BoardModel::adjacent(qx, qy, nx, ny)
                                && (#[trigger] m1.cell(nx, ny)).mark == Mark::Unmarked
                            implies m1.opened(nx, ny) || rest.contains(
                            ((nx as usize), (ny as usize))) by {
                            let q = ((nx as usize), (ny as usize));
                            m1.lemma_idx_bounds(nx, ny);
                            if qx == px && qy == py {
                                // The popped cell itself does not
                                // trigger here.
                                assert(!cascade_trigger(m, px, py));
                            } else {
                                m.lemma_idx_bounds(qx, qy);
                                if m.idx(qx, qy) == i {
                                    m.lemma_idx_injective(qx, qy, px, py);
                                }
                                assert(newly_opened(m, base, qx, qy));
                                assert(promised(m, stack, qx, qy));
                                assert(m.cell(nx, ny).mark == Mark::Unmarked);
                                if !m.opened(nx, ny) && stack.contains(q) {
                                    if q == p {
                                        assert(m1.opened(nx, ny));
                                    } else {
                                        lemma_contains_after_pop(stack, q);
                                    }
                                }
                            }
                        }
                    }
                    lemma_cascade_saturation(m1, rest, base);
                }
            }
        }
    }
}

/// Revealing a safe cell floods until it settles: unless a mine was hit
/// along the way, every cell the move revealed whose flags account for
/// all its mines — in particular every revealed cell with no
/// neighboring mines and no neighboring flags — has its entire
/// unannotated neighborhood revealed as well. Together with the exact
/// reveal contract this pins the flood down: the connected zero region
/// is opened in full, bordering numbered cells included, and the flood
/// terminates on every finite board because each step reveals a cell.
/// What revealing one safe seed cell changes: that cell alone is newly
/// revealed, no revealed mine appears, and no neighbor count moves.
proof fn lemma_open_seed_props(m: BoardModel, x: int, y: int)
    requires
        m.inv(),
        m.openable(x, y),
        !m.mined(x, y),
    ensures
        m.open_cell(x, y).wf(),
        m.open_cell(x, y).width == m.width,
        m.open_cell(x, y).height == m.height,
        m.open_cell(x, y).cells.len() == m.cells.len(),
        m.open_cell(x, y).state == GameState::InProgress,
        m.open_cell(x, y).loss_cond() <==> m.loss_cond(),
        !m.open_cell(x, y).loss_cond(),
        forall|j: int|
            0 <= j < m.cells.len() && (#[trigger] m.open_cell(x, y).cells[j]).opened
                ==> m.open_cell(x, y).cells[j].mark == Mark::Unmarked,
        forall|j: int|
            0 <= j < m.cells.len() && (#[trigger] m.cells[j]).opened
                ==> m.open_cell(x, y).cells[j].opened,
        forall|qx: int, qy: int|
            #[trigger] cascade_trigger(m.open_cell(x, y), qx, qy) == cascade_trigger(m, qx, qy),
        forall|qx: int, qy: int|
            #[trigger] newly_opened(m.open_cell(x, y), m, qx, qy) ==> qx == x && qy == y,
        newly_opened(m.open_cell(x, y), m, x, y),
{
    m.lemma_idx_bounds(x, y);
    let i = m.idx(x, y);
    let m1 = m.open_cell(x, y);
    assert(forall|j: int|
        0 <= j < m.cells.len() && j != i ==> #[trigger] m1.cells[j] == m.cells[j]);
    assert(m1.loss_cond() <==> m.loss_cond()) by {
        if m1.loss_cond() {
            let j = choose|j: int|
                0 <= j < m1.cells.len() && #[trigger] m1.cells[j].mined && m1.cells[j].opened;
            assert(j != i);
            assert(m.cells[j].mined && m.cells[j].opened);
        }
        if m.loss_cond() {
            let j = choose|j: int|
                0 <= j < m.cells.len() && #[trigger] m.cells[j].mined && m.cells[j].opened;
            assert(j != i);
            assert(m1.cells[j].mined && m1.cells[j].opened);
        }
    }
    assert forall|qx: int, qy: int|
        #[trigger] cascade_trigger(m1, qx, qy) == cascade_trigger(m, qx, qy) by {
        BoardModel::lemma_counts_stable(m, m1, qx, qy);
    }
    assert forall|qx: int, qy: int|
        #[trigger] newly_opened(m1, m, qx, qy) implies qx == x && qy == y by {
        m1.lemma_idx_bounds(qx, qy);
        if m1.idx(qx, qy) != i {
            assert(m1.cells[m1.idx(qx, qy)] == m.cells[m.idx(qx, qy)]);
        } else {
            m.lemma_idx_injective(qx, qy, x, y);
        }
    }
}

/// Saturation reads the cells alone: a state change does not disturb
/// it.
proof fn lemma_saturation_state_transfer(m2: BoardModel, mf: BoardModel, base: BoardModel)
    requires
        m2.wf(),
        mf.cells == m2.cells,
        mf.width == m2.width,
        mf.height == m2.height,
        saturated(m2, base),
    ensures
        saturated(mf, base),
{
    assert forall|px: int, py: int|
        #[trigger] newly_opened(mf, base, px, py) && cascade_trigger(mf, px, py)
        implies neighbors_cleared(mf, px, py) by {
        BoardModel::lemma_counts_stable(m2, mf, px, py);
        assert(newly_opened(m2, base, px, py));
        assert(cascade_trigger(m2, px, py));
        assert(neighbors_cleared(m2, px, py));
        assert forall|nx: int, ny: int|
            mf.in_bounds(nx, ny) && BoardModel::adjacent(px, py, nx, ny) && (#[trigger] mf.cell(
                nx,
                ny,
            )).mark == Mark::Unmarked implies mf.opened(nx, ny) by {
            assert(m2.cell(nx, ny).mark == Mark::Unmarked);
            assert(m2.opened(nx, ny));
        }
    }
}

/// Revealing a safe cell floods until it settles: unless a mine was hit
/// along the way, every cell the move revealed whose flags account for
/// all its mines - in particular every revealed cell with no
/// neighboring mines and no neighboring flags - has its entire
/// unannotated neighborhood revealed as well. Together with the exact
/// reveal contract this pins the flood down: the connected zero region
/// is opened in full, bordering numbered cells included, and the flood
/// terminates on every finite board because each step reveals a cell.
pub proof fn lemma_open_saturates(m: BoardModel, x: int, y: int)
    requires
        m.inv(),
        m.openable(x, y),
        !m.mined(x, y),
    ensures
        m.open_model(x, y).state != GameState::Loss ==> saturated(m.open_model(x, y), m),
{
    lemma_open_seed_props(m, x, y);
    let m1 = m.open_cell(x, y);
    let mf = m.open_model(x, y);
    if m.nbr_mines(x, y) == m.nbr_flags(x, y) {
        let pushed = m.push_seq(x, y);
        assert forall|qx: int, qy: int|
            #[trigger] newly_opened(m1, m, qx, qy) && cascade_trigger(m1, qx, qy)
            implies promised(m1, pushed, qx, qy) by {
            assert(qx == x && qy == y);
            assert forall|nx: int, ny: int|
                m1.in_bounds(nx, ny) && BoardModel::adjacent(qx, qy, nx, ny)
                    && (#[trigger] m1.cell(nx, ny)).mark == Mark::Unmarked
                implies m1.opened(nx, ny) || pushed.contains(((nx as usize), (ny as usize))) by {
                m.lemma_push_seq_contains(x, y, nx, ny);
            }
        }
        lemma_cascade_saturation(m1, pushed, m);
        let m2 = BoardModel::cascade(m1, pushed);
        assert(mf == m2.recompute_win());
        if mf.state != GameState::Loss {
            assert(m2.state != GameState::Loss);
            BoardModel::lemma_cascade_props(m1, pushed);
            assert(m2.state == GameState::InProgress);
            assert(saturated(m2, m));
            lemma_saturation_state_transfer(m2, mf, m);
        }
    } else {
        assert(mf == m1.recompute_win());
        assert(saturated(m1, m)) by {
            assert forall|px: int, py: int|
                #[trigger] newly_opened(m1, m, px, py) && cascade_trigger(m1, px, py)
                implies neighbors_cleared(m1, px, py) by {
                assert(px == x && py == y);
                assert(cascade_trigger(m, x, y));
            }
        }
        lemma_saturation_state_transfer(m1, mf, m);
    }
}

/// A neighbor on the scan that proves the probed cell safe: revealed,
/// unmined, with its flags accounting for all its mines.
pub open spec fn scan_zero_cert(m: BoardModel, p: crate::minesweeper::Position) -> bool {
    &&& m.in_bounds(p.0 as int, p.1 as int)
    &&& m.opened(p.0 as int, p.1 as int)
    &&& !m.mined(p.0 as int, p.1 as int)
    &&& m.nbr_mines(p.0 as int, p.1 as int) == m.nbr_flags(p.0 as int, p.1 as int)
}

/// A neighbor on the scan that proves the probed cell mined: revealed,
/// unmined, not already settled by flags, with every closed neighbor
/// forced to hide one of its mines.
pub open spec fn scan_one_cert(m: BoardModel, p: crate::minesweeper::Position) -> bool {
    &&& m.in_bounds(p.0 as int, p.1 as int)
    &&& m.opened(p.0 as int, p.1 as int)
    &&& !m.mined(p.0 as int, p.1 as int)
    &&& m.nbr_mines(p.0 as int, p.1 as int) != m.nbr_flags(p.0 as int, p.1 as int)
    &&& m.nbr_mines(p.0 as int, p.1 as int) == m.nbr_closed(p.0 as int, p.1 as int)
}

/// When some neighbor on the scan proves the cell safe and none proves
/// it mined, the scan answers a certain zero.
proof fn lemma_scan_finds_zero(
    m: BoardModel,
    rest: Seq<crate::minesweeper::Position>,
    a: int,
    b: int,
    k: int,
)
    requires
        forall|i: int| 0 <= i < rest.len() ==> !scan_one_cert(m, #[trigger] rest[i]),
        exists|i: int| 0 <= i < rest.len() && scan_zero_cert(m, #[trigger] rest[i]),
    ensures
        scan_model(m, rest, a, b, k) == MineChance::WithInformation(Chance { num: 0, den: 1 }),
    decreases rest.len(),
{
    let p = rest[0];
    let nx = p.0 as int;
    let ny = p.1 as int;
    let w = choose|i: int| 0 <= i < rest.len() && scan_zero_cert(m, #[trigger] rest[i]);
    if m.in_bounds(nx, ny) && m.opened(nx, ny) && !m.mined(nx, ny) {
        if m.nbr_mines(nx, ny) == m.nbr_flags(nx, ny) {
        } else {
            assert(!scan_one_cert(m, rest[0]));
            assert(m.nbr_mines(nx, ny) != m.nbr_closed(nx, ny));
            assert(w != 0);
            assert(rest.drop_first()[w - 1] == rest[w]);
            if m.nbr_closed(nx, ny) > 0 {
                lemma_scan_finds_zero(m, rest.drop_first(), a * m.nbr_closed(nx, ny) + m.nbr_mines(
                    nx,
                    ny,
                ) * b, b * m.nbr_closed(nx, ny), k + 1);
            } else {
                lemma_scan_finds_zero(m, rest.drop_first(), a, b, k);
            }
        }
    } else {
        assert(w != 0);
        assert(rest.drop_first()[w - 1] == rest[w]);
        lemma_scan_finds_zero(m, rest.drop_first(), a, b, k);
    }
}

/// When some neighbor on the scan proves the cell mined and none proves
/// it safe, the scan answers a certain one.
proof fn lemma_scan_finds_one(
    m: BoardModel,
    rest: Seq<crate::minesweeper::Position>,
    a: int,
    b: int,
    k: int,
)
    requires
        forall|i: int| 0 <= i < rest.len() ==> !scan_zero_cert(m, #[trigger] rest[i]),
        exists|i: int| 0 <= i < rest.len() && scan_one_cert(m, #[trigger] rest[i]),
    ensures
        scan_model(m, rest, a, b, k) == MineChance::WithInformation(Chance { num: 1, den: 1 }),
    decreases rest.len(),
{
    let p = rest[0];
    let nx = p.0 as int;
    let ny = p.1 as int;
    let w = choose|i: int| 0 <= i < rest.len() && scan_one_cert(m, #[trigger] rest[i]);
    if m.in_bounds(nx, ny) && m.opened(nx, ny) && !m.mined(nx, ny) {
        assert(!scan_zero_cert(m, rest[0]));
        assert(m.nbr_mines(nx, ny) != m.nbr_flags(nx, ny));
        if m.nbr_mines(nx, ny) == m.nbr_closed(nx, ny) {
        } else {
            assert(w != 0);
            assert(rest.drop_first()[w - 1] == rest[w]);
            if m.nbr_closed(nx, ny) > 0 {
                lemma_scan_finds_one(m, rest.drop_first(), a * m.nbr_closed(nx, ny) + m.nbr_mines(
                    nx,
                    ny,
                ) * b, b * m.nbr_closed(nx, ny), k + 1);
            } else {
                lemma_scan_finds_one(m, rest.drop_first(), a, b, k);
            }
        }
    } else {
        assert(w != 0);
        assert(rest.drop_first()[w - 1] == rest[w]);
        lemma_scan_finds_one(m, rest.drop_first(), a, b, k);
    }
}

/// A revealed cell showing one mine, whose single closed neighbor is
/// unflagged: that neighbor's chance resolves to a certain one, carrying
/// information. One hypothesis guards the scan against misplaced flags:
/// no revealed neighbor of the probed cell may claim that its flags
/// already account for its mines, since such a (possibly wrong) claim
/// would resolve the cell safe first.
pub proof fn lemma_lone_closed_neighbor_is_mined(
    m: BoardModel,
    qx: int,
    qy: int,
    px: int,
    py: int,
)
    requires
        m.inv(),
        m.in_bounds(qx, qy),
        m.opened(qx, qy),
        !m.mined(qx, qy),
        m.nbr_mines(qx, qy) == 1,
        m.nbr_closed(qx, qy) == 1,
        BoardModel::adjacent(qx, qy, px, py),
        m.in_bounds(px, py),
        !m.opened(px, py),
        !m.flagged(px, py),
        forall|nx: int, ny: int|
            m.in_bounds(nx, ny) && BoardModel::adjacent(px, py, nx, ny) && (#[trigger] m.opened(
                nx,
                ny,
            )) && !m.mined(nx, ny) ==> m.nbr_flags(nx, ny) != m.nbr_mines(nx, ny),
    ensures
        chance_model(m, px, py) == MineChance::WithInformation(Chance { num: 1, den: 1 }),
{
    let s = m.nbr_seq(px, py);
    assert forall|i: int| 0 <= i < s.len() implies !scan_zero_cert(m, #[trigger] s[i]) by {
        m.lemma_nbr_seq_elements(px, py, i);
    }
    m.lemma_nbr_seq_contains(px, py, qx, qy);
    let q = ((qx as usize), (qy as usize));
    let w = choose|i: int| 0 <= i < s.len() && s[i] == q;
    assert(scan_one_cert(m, s[w]));
    lemma_scan_finds_one(m, s, 0, 1, 0);
}

/// Every neighbor of a revealed cell that shows no mines and carries no
/// flags resolves to a certain zero, carrying information, as long as
/// the game is still running and the neighbor is not itself flagged.
pub proof fn lemma_zero_cell_clears_neighbors(
    m: BoardModel,
    qx: int,
    qy: int,
    px: int,
    py: int,
)
    requires
        m.inv(),
        m.state == GameState::InProgress,
        m.in_bounds(qx, qy),
        m.opened(qx, qy),
        m.nbr_mines(qx, qy) == 0,
        m.nbr_flags(qx, qy) == 0,
        BoardModel::adjacent(qx, qy, px, py),
        m.in_bounds(px, py),
        !m.flagged(px, py),
    ensures
        chance_model(m, px, py) == MineChance::WithInformation(Chance { num: 0, den: 1 }),
{
    assert(!m.loss_cond());
    // A revealed cell cannot be mined while the game runs.
    assert forall|u: int, v: int|
        m.in_bounds(u, v) && #[trigger] m.opened(u, v) implies !m.mined(u, v) by {
        m.lemma_idx_bounds(u, v);
        if m.mined(u, v) {
            assert(m.cells[m.idx(u, v)].mined && m.cells[m.idx(u, v)].opened);
            assert(m.loss_cond());
        }
    }
    // The probed cell hides no mine: its revealed neighbor counts zero.
    assert(m.mine_at(px, py) == 0);
    assert(!m.mined(px, py));
    if m.opened(px, py) {
    } else {
        let s = m.nbr_seq(px, py);
        // No neighbor can prove the cell mined: that proof would make it
        // a mine, against the zero count beside it.
        assert forall|i: int| 0 <= i < s.len() implies !scan_one_cert(m, #[trigger] s[i]) by {
            m.lemma_nbr_seq_elements(px, py, i);
            let nx = s[i].0 as int;
            let ny = s[i].1 as int;
            if scan_one_cert(m, s[i]) {
                m.lemma_full_count_pins(nx, ny, px, py);
            }
        }
        m.lemma_nbr_seq_contains(px, py, qx, qy);
        let q = ((qx as usize), (qy as usize));
        let w = choose|i: int| 0 <= i < s.len() && s[i] == q;
        assert(scan_zero_cert(m, s[w]));
        lemma_scan_finds_zero(m, s, 0, 1, 0);
    }
}

/// Every in-bounds cell is revealed or flagged: nothing is left for the
/// solver to act on.
pub open spec fn all_settled(m: BoardModel) -> bool {
    forall|x: int, y: int|
        m.in_bounds(x, y) ==> #[trigger] m.opened(x, y) || m.flagged(x, y)
}

/// A cell index the best-guess passes may hand out: in range, neither
/// revealed nor flagged.
spec fn guess_ok(m: BoardModel, j: int) -> bool {
    &&& 0 <= j < total_cells(m)
    &&& !m.opened(j % m.width, j / m.width)
    &&& !m.flagged(j % m.width, j / m.width)
}

/// Any certain move the scan returns respects the board: a flag goes to
/// an in-bounds unflagged cell, an open to an in-bounds unrevealed one.
proof fn lemma_find_cert_sound(m: BoardModel, info: bool, j: int)
    requires
        m.wf(),
    ensures
        find_cert(m, info, j) is Some ==> (match find_cert(m, info, j)->Some_0 {
            SolverStep::Flag(p) => m.in_bounds(p.0 as int, p.1 as int) && !m.flagged(
                p.0 as int,
                p.1 as int,
            ),
            SolverStep::Open(p) => m.in_bounds(p.0 as int, p.1 as int) && !m.opened(
                p.0 as int,
                p.1 as int,
            ),
            SolverStep::NoStep => false,
        }),
    decreases total_cells(m) - j,
{
    if j < 0 || j >= total_cells(m) {
    } else {
        m.lemma_idx_inverse(j);
        if has_info(chance_at(m, j)) == info && cert_at(m, j) is Some {
        } else {
            lemma_find_cert_sound(m, info, j + 1);
        }
    }
}

/// The best-guess pass only refines an acceptable guess into another
/// acceptable guess.
proof fn lemma_scan_guess_sound(m: BoardModel, info: bool, j: int, best: Option<int>)
    requires
        m.wf(),
        best is Some ==> guess_ok(m, best->Some_0),
    ensures
        scan_guess(m, info, j, best) is Some ==> guess_ok(m, scan_guess(m, info, j, best)->Some_0),
    decreases total_cells(m) - j,
{
    if j < 0 || j >= total_cells(m) {
    } else {
        let next = better_guess(m, j, best, info);
        assert(next is Some ==> guess_ok(m, next->Some_0)) by {
            if guess_candidate(m, j, info) {
            }
        }
        lemma_scan_guess_sound(m, info, j + 1, next);
    }
}

/// With every cell revealed or flagged on a running board, no cell
/// offers a certain move: revealed cells are certainly safe but already
/// open, flagged cells certainly mined but already flagged.
proof fn lemma_find_cert_none(m: BoardModel, info: bool, j: int)
    requires
        m.inv(),
        m.state == GameState::InProgress,
        all_settled(m),
    ensures
        find_cert(m, info, j) is None,
    decreases total_cells(m) - j,
{
    if j < 0 || j >= total_cells(m) {
    } else {
        m.lemma_idx_inverse(j);
        let x = j % m.width;
        let y = j / m.width;
        m.lemma_idx_bounds(x, y);
        if m.opened(x, y) {
            assert(!m.mined(x, y)) by {
                if m.mined(x, y) {
                    assert(m.cells[m.idx(x, y)].mined && m.cells[m.idx(x, y)].opened);
                    assert(m.loss_cond());
                }
            }
            assert(cert_at(m, j) is None);
        } else {
            assert(m.flagged(x, y));
            assert(!m.opened(x, y));
            assert(chance_at(m, j) == MineChance::WithInformation(Chance { num: 1, den: 1 }));
            assert(cert_at(m, j) is None);
        }
        lemma_find_cert_none(m, info, j + 1);
    }
}

/// With every cell revealed or flagged, the best-guess passes find no
/// candidate.
proof fn lemma_scan_guess_none(m: BoardModel, info: bool, j: int)
    requires
        m.wf(),
        all_settled(m),
    ensures
        scan_guess(m, info, j, Option::None) is None,
    decreases total_cells(m) - j,
{
    if j < 0 || j >= total_cells(m) {
    } else {
        m.lemma_idx_inverse(j);
        assert(!guess_candidate(m, j, info));
        lemma_scan_guess_none(m, info, j + 1);
    }
}

/// A best guess in hand survives the rest of the pass.
proof fn lemma_scan_guess_stays_some(m: BoardModel, info: bool, j: int, best: Option<int>)
    requires
        best is Some,
    ensures
        scan_guess(m, info, j, best) is Some,
    decreases total_cells(m) - j,
{
    if j < 0 || j >= total_cells(m) {
    } else {
        lemma_scan_guess_stays_some(m, info, j + 1, better_guess(m, j, best, info));
    }
}

/// A candidate ahead of the pass guarantees the pass returns a guess.
proof fn lemma_scan_guess_finds(m: BoardModel, info: bool, j: int, best: Option<int>, j0: int)
    requires
        0 <= j <= j0 < total_cells(m),
        guess_candidate(m, j0, info),
    ensures
        scan_guess(m, info, j, best) is Some,
    decreases total_cells(m) - j,
{
    if best is Some {
        lemma_scan_guess_stays_some(m, info, j, best);
    } else if j == j0 {
        assert(better_guess(m, j, best, info) is Some);
        lemma_scan_guess_stays_some(m, info, j + 1, better_guess(m, j, best, info));
    } else {
        lemma_scan_guess_finds(m, info, j + 1, better_guess(m, j, best, info), j0);
    }
}

/// The solver's recommendation respects the board: it never flags an
/// already flagged cell, never opens an already revealed one, and while
/// the game runs it recommends nothing exactly when no cell is left to
/// act on, every one being revealed or flagged already.
pub proof fn lemma_solve_step_sound(m: BoardModel)
    requires
        m.inv(),
    ensures
        (match select_model(m) {
            SolverStep::Flag(p) => m.in_bounds(p.0 as int, p.1 as int) && !m.flagged(
                p.0 as int,
                p.1 as int,
            ),
            SolverStep::Open(p) => m.in_bounds(p.0 as int, p.1 as int) && !m.opened(
                p.0 as int,
                p.1 as int,
            ),
            SolverStep::NoStep => true,
        }),
        m.state == GameState::InProgress ==> (select_model(m) == SolverStep::NoStep
            <==> all_settled(m)),
{
    if m.state != GameState::InProgress {
    } else {
        lemma_find_cert_sound(m, true, 0);
        lemma_find_cert_sound(m, false, 0);
        let b1 = scan_guess(m, true, 0, Option::None);
        lemma_scan_guess_sound(m, true, 0, Option::None);
        lemma_scan_guess_sound(m, false, 0, b1);
        let g = scan_guess(m, false, 0, b1);
        if g is Some {
            m.lemma_idx_inverse(g->Some_0);
        }
        if all_settled(m) {
            lemma_find_cert_none(m, true, 0);
            lemma_find_cert_none(m, false, 0);
            lemma_scan_guess_none(m, true, 0);
            lemma_scan_guess_none(m, false, 0);
        } else {
            let pq = choose|x: int, y: int|
                m.in_bounds(x, y) && !(#[trigger] m.opened(x, y)) && !m.flagged(x, y);
            let x0 = pq.0;
            let y0 = pq.1;
            m.lemma_idx_bounds(x0, y0);
            let j0 = m.idx(x0, y0);
            m.lemma_idx_inverse(j0);
            m.lemma_idx_injective(j0 % m.width, j0 / m.width, x0, y0);
            if find_cert(m, true, 0) is Some {
            } else if find_cert(m, false, 0) is Some {
            } else {
                if guess_candidate(m, j0, true) {
                    lemma_scan_guess_finds(m, true, 0, Option::None, j0);
                    lemma_scan_guess_stays_some(m, false, 0, b1);
                } else {
                    assert(guess_candidate(m, j0, false));
                    lemma_scan_guess_finds(m, false, 0, b1, j0);
                }
            }
        }
    }
}

/// The mined cells of a row, by index.
spec fn mined_indices(s: Seq<Cell>) -> Set<int> {
    Set::new(|j: int| 0 <= j < s.len() && s[j].mined)
}

/// The recursive mine count of a row is the cardinality of its set of
/// mined indices.
proof fn lemma_mined_indices_count(s: Seq<Cell>)
    ensures
        mined_indices(s).finite(),
        mined_indices(s).len() == count_mines(s),
    decreases s.len(),
{
    if s.len() == 0 {
        assert(mined_indices(s) =~= Set::<int>::empty());
    } else {
        let t = s.drop_last();
        lemma_mined_indices_count(t);
        if s.last().mined {
            assert(mined_indices(s) =~= mined_indices(t).insert(s.len() - 1));
            assert(!mined_indices(t).contains(s.len() - 1));
        } else {
            assert(mined_indices(s) =~= mined_indices(t));
        }
    }
}

/// The mine count that construction promises really is the cardinality
/// of the set of mined positions: after `new(width, height, num_mines)`
/// the board carries exactly `num_mines` mined positions.
pub proof fn lemma_mine_count_is_cardinality(m: BoardModel)
    requires
        m.wf(),
    ensures
        m.mined_positions().finite(),
        m.mined_positions().len() == count_mines(m.cells),
{
    lemma_mined_indices_count(m.cells);
    let f = |j: int| (j % m.width, j / m.width);
    let ids = mined_indices(m.cells);
    assert forall|j1: int, j2: int|
        ids.contains(j1) && ids.contains(j2) && #[trigger] f(j1) == #[trigger] f(j2)
        implies j1 == j2 by {
        m.lemma_idx_inverse(j1);
        m.lemma_idx_inverse(j2);
    }
    assert forall|p: (int, int)|
        #[trigger] ids.map(f).contains(p) == m.mined_positions().contains(p) by {
        if ids.map(f).contains(p) {
            let j = choose|j: int| ids.contains(j) && f(j) == p;
            m.lemma_idx_inverse(j);
            assert(m.mined_positions().contains(p));
        }
        if m.mined_positions().contains(p) {
            m.lemma_idx_bounds(p.0, p.1);
            let j = m.idx(p.0, p.1);
            vstd::arithmetic::div_mod::lemma_fundamental_div_mod_converse(
                j,
                m.width,
                p.1,
                p.0,
            );
            assert(ids.contains(j) && f(j) == p);
            assert(ids.map(f).contains(p));
        }
    }
    assert(ids.map(f) =~= m.mined_positions());
    vstd::set_lib::lemma_map_size(ids, m.mined_positions(), f);
}

/// A row of cells with no annotation counts zero flags.
proof fn lemma_count_flags_zero(s: Seq<Cell>)
    requires
        forall|j: int| 0 <= j < s.len() ==> (#[trigger] s[j]).mark == Mark::Unmarked,
    ensures
        count_flags(s) == 0,
    decreases s.len(),
{
    if s.len() > 0 {
        lemma_count_flags_zero(s.drop_last());
    }
}

/// On a board with nothing revealed, the neighbor scan finds no
/// information and lands on the base rate.
proof fn lemma_scan_no_open_neighbors(m: BoardModel, rest: Seq<crate::minesweeper::Position>)
    requires
        m.wf(),
        forall|j: int| 0 <= j < m.cells.len() ==> !(#[trigger] m.cells[j]).opened,
    ensures
        scan_model(m, rest, 0, 1, 0) == MineChance::NoInformation(
            Chance { num: m.remaining() as u64, den: (m.width * m.height) as u64 },
        ),
    decreases rest.len(),
{
    if rest.len() > 0 {
        let p = rest[0];
        let nx = p.0 as int;
        let ny = p.1 as int;
        if m.in_bounds(nx, ny) {
            m.lemma_idx_bounds(nx, ny);
        }
        lemma_scan_no_open_neighbors(m, rest.drop_first());
    }
}

/// On a board with nothing revealed and nothing flagged, every in-bounds
/// position reports no information, at the uniform base rate: the mine
/// count over the number of cells.
pub proof fn lemma_fresh_board_uniform(m: BoardModel, x: int, y: int)
    requires
        m.inv(),
        m.in_bounds(x, y),
        forall|j: int|
            0 <= j < m.cells.len() ==> !(#[trigger] m.cells[j]).opened && m.cells[j].mark
                == Mark::Unmarked,
    ensures
        chance_model(m, x, y) == MineChance::NoInformation(
            Chance { num: count_mines(m.cells) as u64, den: (m.width * m.height) as u64 },
        ),
{
    m.lemma_idx_bounds(x, y);
    lemma_count_flags_zero(m.cells);
    lemma_count_bounds(m.cells);
    lemma_scan_no_open_neighbors(m, m.nbr_seq(x, y));
    assert(m.remaining() == count_mines(m.cells));
}

} // verus!

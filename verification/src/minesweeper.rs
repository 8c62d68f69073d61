//! The board state machine: mine placement, cell reveal with an iterative
//! flood-fill cascade, flag cycling, win/loss detection, and the per-cell
//! display projection.

use rand::RngExt;
use vstd::prelude::*;

use crate::model::{
    count_closed, count_flags, count_mines, lemma_count_bounds, lemma_count_closed_update,
    lemma_count_mines_push, lemma_count_mines_update, BoardModel, Cell, Mark,
};

verus! {

/// A grid coordinate: zero-based (column, row).
pub type Position = (usize, usize);

/// Result of opening a cell: a detonated mine, or a safe cell together
/// with its neighboring-mine count.
#[derive(Debug, Clone, Copy, PartialEq, Eq, Structural)]
pub enum OpenResult {
    Mine,
    NoMine(u8),
}

/// Overall state of one game. It starts `InProgress` and only ever moves
/// forward to `Win` or `Loss`.
#[derive(Debug, Clone, Copy, PartialEq, Eq, Structural)]
pub enum GameState {
    InProgress,
    Win,
    Loss,
}

/// The player-facing display classification of one cell.
#[derive(Debug, Clone, Copy, PartialEq, Eq, Structural)]
pub enum FieldState {
    /// Closed and unannotated (mines stay hidden while the game runs).
    Unknown,
    /// Closed and flagged.
    Flagged,
    /// Closed and question-marked.
    Question,
    /// Revealed safe cell, with its neighboring-mine count.
    Open(u8),
    /// Game over: a mine that was never revealed.
    MineRevealed,
    /// Game over: a flag on a cell that hides no mine.
    NoMine,
    /// Game over: the revealed mine.
    MineDetonated,
}

/// Draws a value below the bound, uniformly.
///
/// Relies on rand: `rand::rng().random_range(0..n)` returns a uniformly
/// distributed value of the half-open range, and panics only when the
/// range is empty, which the precondition rules out. Nothing beyond the
/// range bound is promised of a random draw.
#[verifier::external_body]
fn random_below(n: usize) -> (r: usize)
    requires
        1 <= n,
    ensures
        r < n,
{
    rand::rng().random_range(0..n)
}

/// A board: the grid dimensions, one cell per position, and the game
/// state, recomputed after every mutation.
#[derive(Debug)]
pub struct Minesweeper {
    width: usize,
    height: usize,
    cells: Vec<Cell>,
    pub game_state: GameState,
}

impl View for Minesweeper {
    type V = BoardModel;

    closed spec fn view(&self) -> BoardModel {
        BoardModel {
            width: self.width as int,
            height: self.height as int,
            cells: self.cells@,
            state: self.game_state,
        }
    }
}

impl Minesweeper {
    /// The state invariant, established by the constructors and preserved
    /// by every mutator.
    pub open spec fn inv(&self) -> bool {
        self@.inv()
    }

    /// Creates a board with the given dimensions and exactly `num_mines`
    /// mines, drawn uniformly without replacement from the whole grid;
    /// everything else starts closed and unannotated, and the game starts
    /// `InProgress`. The dimensions must be positive, the grid must fit in
    /// memory, and the mine count cannot exceed the number of cells.
    pub fn new(width: usize, height: usize, num_mines: usize) -> (r: Minesweeper)
        requires
            1 <= width,
            1 <= height,
            width * height <= usize::MAX,
            num_mines <= width * height,
        ensures
            r.inv(),
            r@.width == width,
            r@.height == height,
            r@.state == GameState::InProgress,
            count_mines(r@.cells) == num_mines,
            forall|j: int| 0 <= j < r@.cells.len() ==> !(#[trigger] r@.cells[j]).opened
                && r@.cells[j].mark == Mark::Unmarked,
    {
        let total: usize = width * height;
        let mut cells: Vec<Cell> = Vec::new();
        let mut placed: usize = 0;
        let mut i: usize = 0;
        // Selection sampling: walking the cells in order, each cell is
        // mined with probability (mines still needed) / (cells left),
        // which selects every subset of the requested size with equal
        // probability and always places exactly the requested count.
        while i < total
            invariant
                i <= total,
                placed <= num_mines,
                num_mines - placed <= total - i,
                cells@.len() == i,
                count_mines(cells@) == placed,
                forall|j: int| 0 <= j < i ==> !(#[trigger] cells@[j]).opened
                    && cells@[j].mark == Mark::Unmarked,
            decreases total - i,
        {
            let need = num_mines - placed;
            let draw = random_below(total - i);
            let mined = draw < need;
            proof {
                lemma_count_mines_push(
                    cells@,
                    Cell { mined: mined, opened: false, mark: Mark::Unmarked },
                );
            }
            cells.push(Cell { mined: mined, opened: false, mark: Mark::Unmarked });
            if mined {
                placed = placed + 1;
            }
            i = i + 1;
        }
        let r = Minesweeper { width, height, cells, game_state: GameState::InProgress };
        proof {
            assert(placed == num_mines);
            assert forall|j: int| 0 <= j < r@.cells.len() && #[trigger] r@.cells[j].opened
                implies r@.cells[j].mark == Mark::Unmarked by {}
            assert(!r@.loss_cond());
            if r@.safe_exists() {
                let j = choose|j: int|
                    0 <= j < r@.cells.len() && !(#[trigger] r@.cells[j].mined);
                assert(!r@.win_cond());
            }
        }
        r
    }

    /// Creates a board with the given mines, for callers that need a known
    /// layout. The mine positions must be in bounds and pairwise distinct.
    pub fn with_mines(width: usize, height: usize, mines: &Vec<Position>) -> (r: Minesweeper)
        requires
            1 <= width,
            1 <= height,
            width * height <= usize::MAX,
            forall|k: int| 0 <= k < mines@.len() ==> (#[trigger] mines@[k]).0 < width
                && mines@[k].1 < height,
            forall|k1: int, k2: int|
                0 <= k1 < k2 < mines@.len() ==> #[trigger] mines@[k1] != #[trigger] mines@[k2],
        ensures
            r.inv(),
            r@.width == width,
            r@.height == height,
            r@.state == GameState::InProgress,
            forall|x: int, y: int| r@.in_bounds(x, y)
                ==> (#[trigger] r@.mined(x, y) <==> mines@.contains((x as usize, y as usize))),
            count_mines(r@.cells) == mines@.len(),
            forall|j: int| 0 <= j < r@.cells.len() ==> !(#[trigger] r@.cells[j]).opened
                && r@.cells[j].mark == Mark::Unmarked,
    {
        let total: usize = width * height;
        let mut cells: Vec<Cell> = Vec::new();
        let mut i: usize = 0;
        while i < total
            invariant
                i <= total,
                cells@.len() == i,
                forall|j: int| 0 <= j < i ==> #[trigger] cells@[j] == (Cell {
                    mined: false,
                    opened: false,
                    mark: Mark::Unmarked,
                }),
            decreases total - i,
        {
            cells.push(Cell { mined: false, opened: false, mark: Mark::Unmarked });
            i = i + 1;
        }
        let mut r = Minesweeper { width, height, cells, game_state: GameState::InProgress };
        proof {
            assert(count_mines(r@.cells) == 0) by {
                lemma_all_safe_count_zero(r@.cells);
            }
            assert forall|x: int, y: int| r@.in_bounds(x, y) implies !(#[trigger] r@.mined(
                x,
                y,
            )) by {
                r@.lemma_idx_bounds(x, y);
            }
        }
        let mut k: usize = 0;
        while k < mines.len()
            invariant
                k <= mines@.len(),
                r.width == width,
                r.height == height,
                r.game_state == GameState::InProgress,
                r@.wf(),
                forall|kk: int| 0 <= kk < mines@.len() ==> (#[trigger] mines@[kk]).0 < width
                    && mines@[kk].1 < height,
                forall|k1: int, k2: int|
                    0 <= k1 < k2 < mines@.len()
                        ==> #[trigger] mines@[k1] != #[trigger] mines@[k2],
                forall|x: int, y: int| r@.in_bounds(x, y)
                    ==> (#[trigger] r@.mined(x, y)
                        <==> mines@.take(k as int).contains((x as usize, y as usize))),
                count_mines(r@.cells) == k,
                forall|j: int| 0 <= j < r@.cells.len() ==> !(#[trigger] r@.cells[j]).opened
                    && r@.cells[j].mark == Mark::Unmarked,
            decreases mines@.len() - k,
        {
            let p = mines[k];
            let ghost pre = r@;
            proof {
                r@.lemma_idx_bounds(p.0 as int, p.1 as int);
                // The position is not yet mined: it cannot occur among the
                // first k mine positions, which are all distinct from it.
                assert(!mines@.take(k as int).contains(p)) by {
                    if mines@.take(k as int).contains(p) {
                        let kk = choose|kk: int|
                            0 <= kk < k && mines@.take(k as int)[kk] == p;
                        assert(mines@[kk] == mines@[k as int]);
                    }
                }
                assert(!pre.mined(p.0 as int, p.1 as int));
                lemma_count_mines_update(
                    pre.cells,
                    pre.idx(p.0 as int, p.1 as int),
                    Cell { mined: true, ..pre.cell(p.0 as int, p.1 as int) },
                );
            }
            let c = r.cell_at(p.0, p.1);
            r.set_cell(p.0, p.1, Cell { mined: true, ..c });
            proof {
                let ghost post = r@;
                assert forall|x: int, y: int| post.in_bounds(x, y)
                    implies (#[trigger] post.mined(x, y)
                        <==> mines@.take(k as int + 1).contains((x as usize, y as usize))) by {
                    post.lemma_idx_bounds(x, y);
                    pre.lemma_idx_bounds(p.0 as int, p.1 as int);
                    if post.idx(x, y) == pre.idx(p.0 as int, p.1 as int) {
                        pre.lemma_idx_injective(x, y, p.0 as int, p.1 as int);
                        assert(mines@.take(k as int + 1)[k as int] == p);
                    } else {
                        assert(post.mined(x, y) == pre.mined(x, y));
                        assert(mines@.take(k as int + 1).contains((x as usize, y as usize))
                            <==> mines@.take(k as int).contains((x as usize, y as usize))) by {
                            let t1 = mines@.take(k as int + 1);
                            let t0 = mines@.take(k as int);
                            if t1.contains((x as usize, y as usize)) {
                                let kk = choose|kk: int|
                                    0 <= kk < t1.len() && t1[kk] == (x as usize, y as usize);
                                if kk < k as int {
                                    assert(t0[kk] == (x as usize, y as usize));
                                } else {
                                    assert(mines@[kk] == p);
                                    pre.lemma_idx_injective(x, y, p.0 as int, p.1 as int);
                                }
                            } else {
                                if t0.contains((x as usize, y as usize)) {
                                    let kk = choose|kk: int|
                                        0 <= kk < t0.len() && t0[kk] == (x as usize, y as usize);
                                    assert(t1[kk] == (x as usize, y as usize));
                                }
                            }
                        }
                    }
                }
            }
            k = k + 1;
        }
        proof {
            assert(mines@.take(mines@.len() as int) =~= mines@);
            assert(!r@.loss_cond());
            if r@.safe_exists() {
                assert(!r@.win_cond());
            }
        }
        r
    }

    /// The game state, as a query tied to the model.
    pub fn state(&self) -> (r: GameState)
        ensures
            r == self@.state,
    {
        self.game_state
    }

    /// The board width fixed at construction.
    pub fn width(&self) -> (r: usize)
        ensures
            r == self@.width,
    {
        self.width
    }

    /// The board height fixed at construction.
    pub fn height(&self) -> (r: usize)
        ensures
            r == self@.height,
    {
        self.height
    }

    fn cell_at(&self, x: usize, y: usize) -> (c: Cell)
        requires
            self@.wf(),
            self@.in_bounds(x as int, y as int),
        ensures
            c == self@.cell(x as int, y as int),
    {
        proof {
            self@.lemma_idx_bounds(x as int, y as int);
        }
        self.cells[y * self.width + x]
    }

    fn set_cell(&mut self, x: usize, y: usize, c: Cell)
        requires
            old(self)@.wf(),
            old(self)@.in_bounds(x as int, y as int),
        ensures
            final(self)@ == (BoardModel {
                cells: old(self)@.cells.update(old(self)@.idx(x as int, y as int), c),
                ..old(self)@
            }),
            final(self).width == old(self).width,
            final(self).height == old(self).height,
            final(self).game_state == old(self).game_state,
    {
        proof {
            self@.lemma_idx_bounds(x as int, y as int);
        }
        let i = y * self.width + x;
        self.cells.set(i, c);
    }

    /// Whether the position is inside the grid.
    pub fn is_in_bounds(&self, pos: Position) -> (r: bool)
        ensures
            r == self@.in_bounds(pos.0 as int, pos.1 as int),
    {
        pos.0 < self.width && pos.1 < self.height
    }

    /// Whether the position hides a mine (false out of bounds).
    pub fn is_mined(&self, pos: Position) -> (r: bool)
        requires
            self@.wf(),
        ensures
            r == (self@.in_bounds(pos.0 as int, pos.1 as int)
                && self@.mined(pos.0 as int, pos.1 as int)),
    {
        if pos.0 < self.width && pos.1 < self.height {
            self.cell_at(pos.0, pos.1).mined
        } else {
            false
        }
    }

    /// Whether the position has been revealed (false out of bounds).
    pub fn is_open(&self, pos: Position) -> (r: bool)
        requires
            self@.wf(),
        ensures
            r == (self@.in_bounds(pos.0 as int, pos.1 as int)
                && self@.opened(pos.0 as int, pos.1 as int)),
    {
        if pos.0 < self.width && pos.1 < self.height {
            self.cell_at(pos.0, pos.1).opened
        } else {
            false
        }
    }

    /// Whether the position is flagged (false out of bounds).
    pub fn is_flagged(&self, pos: Position) -> (r: bool)
        requires
            self@.wf(),
        ensures
            r == (self@.in_bounds(pos.0 as int, pos.1 as int)
                && self@.flagged(pos.0 as int, pos.1 as int)),
    {
        if pos.0 < self.width && pos.1 < self.height {
            matches!(self.cell_at(pos.0, pos.1).mark, Mark::Flagged)
        } else {
            false
        }
    }

    /// The cell at a position, with an out-of-bounds position reported as
    /// a revealed, unmined, unannotated cell, so that it contributes to no
    /// neighbor count.
    fn probe(&self, x: usize, y: usize) -> (c: Cell)
        requires
            self@.wf(),
        ensures
            self@.in_bounds(x as int, y as int) ==> c == self@.cell(x as int, y as int),
            !self@.in_bounds(x as int, y as int) ==> c == (Cell {
                mined: false,
                opened: true,
                mark: Mark::Unmarked,
            }),
    {
        if x < self.width && y < self.height {
            self.cell_at(x, y)
        } else {
            Cell { mined: false, opened: true, mark: Mark::Unmarked }
        }
    }

    /// The in-bounds neighbors of a position, in enumeration order: by
    /// column, then by row.
    pub fn neighboring_fields_iter(&self, pos: Position) -> (r: Vec<Position>)
        requires
            self@.wf(),
        ensures
            r@ == self@.nbr_seq(pos.0 as int, pos.1 as int),
    {
        let (x, y) = pos;
        let w = self.width;
        let h = self.height;
        let ghost m = self@;
        let ghost gx = x as int;
        let ghost gy = y as int;
        let mut r: Vec<Position> = Vec::new();
        if x > 0 && y > 0 && x - 1 < w && y - 1 < h {
            r.push((x - 1, y - 1));
        }
        proof {
            assert(r@ =~= m.nbr_one(gx - 1, gy - 1));
        }
        if x > 0 && x - 1 < w && y < h {
            r.push((x - 1, y));
        }
        proof {
            assert(r@ =~= m.nbr_one(gx - 1, gy - 1) + m.nbr_one(gx - 1, gy));
        }
        if x > 0 && x - 1 < w && y < h - 1 {
            r.push((x - 1, y + 1));
        }
        proof {
            assert(r@ =~= m.nbr_one(gx - 1, gy - 1) + m.nbr_one(gx - 1, gy) + m.nbr_one(
                gx - 1,
                gy + 1,
            ));
        }
        if x < w && y > 0 && y - 1 < h {
            r.push((x, y - 1));
        }
        proof {
            assert(r@ =~= m.nbr_one(gx - 1, gy - 1) + m.nbr_one(gx - 1, gy) + m.nbr_one(
                gx - 1,
                gy + 1,
            ) + m.nbr_one(gx, gy - 1));
        }
        if x < w && y < h - 1 {
            r.push((x, y + 1));
        }
        proof {
            assert(r@ =~= m.nbr_one(gx - 1, gy - 1) + m.nbr_one(gx - 1, gy) + m.nbr_one(
                gx - 1,
                gy + 1,
            ) + m.nbr_one(gx, gy - 1) + m.nbr_one(gx, gy + 1));
        }
        if x < w - 1 && y > 0 && y - 1 < h {
            r.push((x + 1, y - 1));
        }
        proof {
            assert(r@ =~= m.nbr_one(gx - 1, gy - 1) + m.nbr_one(gx - 1, gy) + m.nbr_one(
                gx - 1,
                gy + 1,
            ) + m.nbr_one(gx, gy - 1) + m.nbr_one(gx, gy + 1) + m.nbr_one(gx + 1, gy - 1));
        }
        if x < w - 1 && y < h {
            r.push((x + 1, y));
        }
        proof {
            assert(r@ =~= m.nbr_one(gx - 1, gy - 1) + m.nbr_one(gx - 1, gy) + m.nbr_one(
                gx - 1,
                gy + 1,
            ) + m.nbr_one(gx, gy - 1) + m.nbr_one(gx, gy + 1) + m.nbr_one(gx + 1, gy - 1)
                + m.nbr_one(gx + 1, gy));
        }
        if x < w - 1 && y < h - 1 {
            r.push((x + 1, y + 1));
        }
        proof {
            assert(r@ =~= m.nbr_seq(gx, gy));
        }
        r
    }

    /// Number of mines among the neighbors of a position.
    #[verifier::rlimit(50)]
    pub fn neighboring_mines(&self, pos: Position) -> (r: u8)
        requires
            self@.wf(),
        ensures
            r as int == self@.nbr_mines(pos.0 as int, pos.1 as int),
    {
        let (x, y) = pos;
        let ghost m = self@;
        let ghost gx = x as int;
        let ghost gy = y as int;
        let mut c: u8 = 0;
        if x > 0 && y > 0 && self.probe(x - 1, y - 1).mined {
            c = c + 1;
        }
        assert(c as int == m.mine_at(gx - 1, gy - 1));
        if x > 0 && self.probe(x - 1, y).mined {
            c = c + 1;
        }
        assert(c as int == m.mine_at(gx - 1, gy - 1) + m.mine_at(gx - 1, gy));
        if x > 0 && y < usize::MAX && self.probe(x - 1, y + 1).mined {
            c = c + 1;
        }
        assert(c as int == m.mine_at(gx - 1, gy - 1) + m.mine_at(gx - 1, gy) + m.mine_at(
            gx - 1,
            gy + 1,
        ));
        if y > 0 && self.probe(x, y - 1).mined {
            c = c + 1;
        }
        assert(c as int == m.mine_at(gx - 1, gy - 1) + m.mine_at(gx - 1, gy) + m.mine_at(
            gx - 1,
            gy + 1,
        ) + m.mine_at(gx, gy - 1));
        if y < usize::MAX && self.probe(x, y + 1).mined {
            c = c + 1;
        }
        assert(c as int == m.mine_at(gx - 1, gy - 1) + m.mine_at(gx - 1, gy) + m.mine_at(
            gx - 1,
            gy + 1,
        ) + m.mine_at(gx, gy - 1) + m.mine_at(gx, gy + 1));
        if x < usize::MAX && y > 0 && self.probe(x + 1, y - 1).mined {
            c = c + 1;
        }
        assert(c as int == m.mine_at(gx - 1, gy - 1) + m.mine_at(gx - 1, gy) + m.mine_at(
            gx - 1,
            gy + 1,
        ) + m.mine_at(gx, gy - 1) + m.mine_at(gx, gy + 1) + m.mine_at(gx + 1, gy - 1));
        if x < usize::MAX && self.probe(x + 1, y).mined {
            c = c + 1;
        }
        assert(c as int == m.mine_at(gx - 1, gy - 1) + m.mine_at(gx - 1, gy) + m.mine_at(
            gx - 1,
            gy + 1,
        ) + m.mine_at(gx, gy - 1) + m.mine_at(gx, gy + 1) + m.mine_at(gx + 1, gy - 1)
            + m.mine_at(gx + 1, gy));
        if x < usize::MAX && y < usize::MAX && self.probe(x + 1, y + 1).mined {
            c = c + 1;
        }
        assert(c as int == m.nbr_mines(gx, gy));
        c
    }

    /// Number of flags among the neighbors of a position.
    #[verifier::rlimit(100)]
    pub fn neighboring_flags(&self, pos: Position) -> (r: u8)
        requires
            self@.wf(),
        ensures
            r as int == self@.nbr_flags(pos.0 as int, pos.1 as int),
    {
        let (x, y) = pos;
        let ghost m = self@;
        let ghost gx = x as int;
        let ghost gy = y as int;
        let mut c: u8 = 0;
        if x > 0 && y > 0 && self.probe(x - 1, y - 1).mark == Mark::Flagged {
            c = c + 1;
        }
        assert(c as int == m.flag_at(gx - 1, gy - 1));
        if x > 0 && self.probe(x - 1, y).mark == Mark::Flagged {
            c = c + 1;
        }
        assert(c as int == m.flag_at(gx - 1, gy - 1) + m.flag_at(gx - 1, gy));
        if x > 0 && y < usize::MAX && self.probe(x - 1, y + 1).mark == Mark::Flagged {
            c = c + 1;
        }
        assert(c as int == m.flag_at(gx - 1, gy - 1) + m.flag_at(gx - 1, gy) + m.flag_at(
            gx - 1,
            gy + 1,
        ));
        if y > 0 && self.probe(x, y - 1).mark == Mark::Flagged {
            c = c + 1;
        }
        assert(c as int == m.flag_at(gx - 1, gy - 1) + m.flag_at(gx - 1, gy) + m.flag_at(
            gx - 1,
            gy + 1,
        ) + m.flag_at(gx, gy - 1));
        if y < usize::MAX && self.probe(x, y + 1).mark == Mark::Flagged {
            c = c + 1;
        }
        assert(c as int == m.flag_at(gx - 1, gy - 1) + m.flag_at(gx - 1, gy) + m.flag_at(
            gx - 1,
            gy + 1,
        ) + m.flag_at(gx, gy - 1) + m.flag_at(gx, gy + 1));
        if x < usize::MAX && y > 0 && self.probe(x + 1, y - 1).mark == Mark::Flagged {
            c = c + 1;
        }
        assert(c as int == m.flag_at(gx - 1, gy - 1) + m.flag_at(gx - 1, gy) + m.flag_at(
            gx - 1,
            gy + 1,
        ) + m.flag_at(gx, gy - 1) + m.flag_at(gx, gy + 1) + m.flag_at(gx + 1, gy - 1));
        if x < usize::MAX && self.probe(x + 1, y).mark == Mark::Flagged {
            c = c + 1;
        }
        assert(c as int == m.flag_at(gx - 1, gy - 1) + m.flag_at(gx - 1, gy) + m.flag_at(
            gx - 1,
            gy + 1,
        ) + m.flag_at(gx, gy - 1) + m.flag_at(gx, gy + 1) + m.flag_at(gx + 1, gy - 1)
            + m.flag_at(gx + 1, gy));
        if x < usize::MAX && y < usize::MAX && self.probe(x + 1, y + 1).mark == Mark::Flagged {
            c = c + 1;
        }
        assert(c as int == m.nbr_flags(gx, gy));
        c
    }

    /// Number of closed cells among the in-bounds neighbors of a position.
    #[verifier::rlimit(50)]
    pub fn neighboring_closed_fields(&self, pos: Position) -> (r: u8)
        requires
            self@.wf(),
        ensures
            r as int == self@.nbr_closed(pos.0 as int, pos.1 as int),
    {
        let (x, y) = pos;
        let ghost m = self@;
        let ghost gx = x as int;
        let ghost gy = y as int;
        let mut c: u8 = 0;
        if x > 0 && y > 0 && !self.probe(x - 1, y - 1).opened {
            c = c + 1;
        }
        assert(c as int == m.closed_at(gx - 1, gy - 1));
        if x > 0 && !self.probe(x - 1, y).opened {
            c = c + 1;
        }
        assert(c as int == m.closed_at(gx - 1, gy - 1) + m.closed_at(gx - 1, gy));
        if x > 0 && y < usize::MAX && !self.probe(x - 1, y + 1).opened {
            c = c + 1;
        }
        assert(c as int == m.closed_at(gx - 1, gy - 1) + m.closed_at(gx - 1, gy) + m.closed_at(
            gx - 1,
            gy + 1,
        ));
        if y > 0 && !self.probe(x, y - 1).opened {
            c = c + 1;
        }
        assert(c as int == m.closed_at(gx - 1, gy - 1) + m.closed_at(gx - 1, gy) + m.closed_at(
            gx - 1,
            gy + 1,
        ) + m.closed_at(gx, gy - 1));
        if y < usize::MAX && !self.probe(x, y + 1).opened {
            c = c + 1;
        }
        assert(c as int == m.closed_at(gx - 1, gy - 1) + m.closed_at(gx - 1, gy) + m.closed_at(
            gx - 1,
            gy + 1,
        ) + m.closed_at(gx, gy - 1) + m.closed_at(gx, gy + 1));
        if x < usize::MAX && y > 0 && !self.probe(x + 1, y - 1).opened {
            c = c + 1;
        }
        assert(c as int == m.closed_at(gx - 1, gy - 1) + m.closed_at(gx - 1, gy) + m.closed_at(
            gx - 1,
            gy + 1,
        ) + m.closed_at(gx, gy - 1) + m.closed_at(gx, gy + 1) + m.closed_at(gx + 1, gy - 1));
        if x < usize::MAX && !self.probe(x + 1, y).opened {
            c = c + 1;
        }
        assert(c as int == m.closed_at(gx - 1, gy - 1) + m.closed_at(gx - 1, gy) + m.closed_at(
            gx - 1,
            gy + 1,
        ) + m.closed_at(gx, gy - 1) + m.closed_at(gx, gy + 1) + m.closed_at(gx + 1, gy - 1)
            + m.closed_at(gx + 1, gy));
        if x < usize::MAX && y < usize::MAX && !self.probe(x + 1, y + 1).opened {
            c = c + 1;
        }
        assert(c as int == m.nbr_closed(gx, gy));
        c
    }

    /// Whether the position is question-marked (false out of bounds).
    pub fn is_questioned(&self, pos: Position) -> (r: bool)
        requires
            self@.wf(),
        ensures
            r == (self@.in_bounds(pos.0 as int, pos.1 as int)
                && self@.questioned(pos.0 as int, pos.1 as int)),
    {
        if pos.0 < self.width && pos.1 < self.height {
            matches!(self.cell_at(pos.0, pos.1).mark, Mark::Questioned)
        } else {
            false
        }
    }

    /// Whether every safe cell has been revealed.
    fn check_win(&self) -> (r: bool)
        requires
            self@.wf(),
        ensures
            r == self@.win_cond(),
    {
        let n = self.cells.len();
        let mut j: usize = 0;
        while j < n
            invariant
                j <= n,
                n == self@.cells.len(),
                forall|i: int|
                    0 <= i < j && !(#[trigger] self@.cells[i]).mined ==> self@.cells[i].opened,
            decreases n - j,
        {
            let c = self.cells[j];
            if !c.mined && !c.opened {
                return false;
            }
            j = j + 1;
        }
        true
    }

    /// The player-facing mine counter: the absolute difference between
    /// the number of mines and the number of flags.
    pub fn remaining_mines(&self) -> (r: usize)
        requires
            self@.wf(),
        ensures
            r == self@.remaining(),
    {
        let n = self.cells.len();
        let mut cm: usize = 0;
        let mut cf: usize = 0;
        let mut j: usize = 0;
        while j < n
            invariant
                j <= n,
                n == self@.cells.len(),
                cm == count_mines(self@.cells.take(j as int)),
                cf == count_flags(self@.cells.take(j as int)),
                cm <= j,
                cf <= j,
            decreases n - j,
        {
            let c = self.cells[j];
            proof {
                assert(self@.cells.take(j as int + 1).drop_last() =~= self@.cells.take(j as int));
                assert(self@.cells.take(j as int + 1).last() == self@.cells[j as int]);
            }
            if c.mined {
                cm = cm + 1;
            }
            if matches!(c.mark, Mark::Flagged) {
                cf = cf + 1;
            }
            j = j + 1;
        }
        proof {
            assert(self@.cells.take(n as int) =~= self@.cells);
        }
        if cm >= cf {
            cm - cf
        } else {
            cf - cm
        }
    }

    /// The display classification of a position: the player's own
    /// information while the game runs, the full picture once it ends.
    pub fn get_field_state(&self, pos: Position) -> (r: FieldState)
        requires
            self@.wf(),
        ensures
            r == self@.field_state_model(pos.0 as int, pos.1 as int),
    {
        if !(pos.0 < self.width && pos.1 < self.height) {
            return FieldState::Unknown;
        }
        let c = self.cell_at(pos.0, pos.1);
        if self.game_state == GameState::InProgress {
            if c.opened {
                FieldState::Open(self.neighboring_mines(pos))
            } else if matches!(c.mark, Mark::Flagged) {
                FieldState::Flagged
            } else if matches!(c.mark, Mark::Questioned) {
                FieldState::Question
            } else {
                FieldState::Unknown
            }
        } else {
            if c.mined && c.opened {
                FieldState::MineDetonated
            } else if c.mined {
                FieldState::MineRevealed
            } else if matches!(c.mark, Mark::Flagged) {
                FieldState::NoMine
            } else if c.opened {
                FieldState::Open(self.neighboring_mines(pos))
            } else if matches!(c.mark, Mark::Questioned) {
                FieldState::Question
            } else {
                FieldState::Unknown
            }
        }
    }

    /// Appends the in-bounds neighbors of a position to the work stack,
    /// in reverse enumeration order, so that popping visits them in
    /// enumeration order.
    fn push_neighbors(&self, stack: &mut Vec<Position>, pos: Position)
        requires
            self@.wf(),
        ensures
            final(stack)@ == old(stack)@ + self@.push_seq(pos.0 as int, pos.1 as int),
    {
        let (x, y) = pos;
        let w = self.width;
        let h = self.height;
        let ghost m = self@;
        let ghost gx = x as int;
        let ghost gy = y as int;
        let mut adds: Vec<Position> = Vec::new();
        if x < w - 1 && y < h - 1 {
            adds.push((x + 1, y + 1));
        }
        proof {
            assert(adds@ =~= m.nbr_one(gx + 1, gy + 1));
        }
        if x < w - 1 && y < h {
            adds.push((x + 1, y));
        }
        proof {
            assert(adds@ =~= m.nbr_one(gx + 1, gy + 1) + m.nbr_one(gx + 1, gy));
        }
        if x < w - 1 && y > 0 && y - 1 < h {
            adds.push((x + 1, y - 1));
        }
        proof {
            assert(adds@ =~= m.nbr_one(gx + 1, gy + 1) + m.nbr_one(gx + 1, gy) + m.nbr_one(
                gx + 1,
                gy - 1,
            ));
        }
        if x < w && y < h - 1 {
            adds.push((x, y + 1));
        }
        proof {
            assert(adds@ =~= m.nbr_one(gx + 1, gy + 1) + m.nbr_one(gx + 1, gy) + m.nbr_one(
                gx + 1,
                gy - 1,
            ) + m.nbr_one(gx, gy + 1));
        }
        if x < w && y > 0 && y - 1 < h {
            adds.push((x, y - 1));
        }
        proof {
            assert(adds@ =~= m.nbr_one(gx + 1, gy + 1) + m.nbr_one(gx + 1, gy) + m.nbr_one(
                gx + 1,
                gy - 1,
            ) + m.nbr_one(gx, gy + 1) + m.nbr_one(gx, gy - 1));
        }
        if x > 0 && x - 1 < w && y < h - 1 {
            adds.push((x - 1, y + 1));
        }
        proof {
            assert(adds@ =~= m.nbr_one(gx + 1, gy + 1) + m.nbr_one(gx + 1, gy) + m.nbr_one(
                gx + 1,
                gy - 1,
            ) + m.nbr_one(gx, gy + 1) + m.nbr_one(gx, gy - 1) + m.nbr_one(gx - 1, gy + 1));
        }
        if x > 0 && x - 1 < w && y < h {
            adds.push((x - 1, y));
        }
        proof {
            assert(adds@ =~= m.nbr_one(gx + 1, gy + 1) + m.nbr_one(gx + 1, gy) + m.nbr_one(
                gx + 1,
                gy - 1,
            ) + m.nbr_one(gx, gy + 1) + m.nbr_one(gx, gy - 1) + m.nbr_one(gx - 1, gy + 1)
                + m.nbr_one(gx - 1, gy));
        }
        if x > 0 && y > 0 && x - 1 < w && y - 1 < h {
            adds.push((x - 1, y - 1));
        }
        proof {
            assert(adds@ =~= m.push_seq(gx, gy));
        }
        stack.append(&mut adds);
    }

    /// Reveals the cell at a position. A no-op (returning nothing) once
    /// the game has ended, out of bounds, and on cells already revealed,
    /// flagged or questioned. Revealing a mine ends the game at once,
    /// without cascading. Revealing a safe cell whose flag count matches
    /// its mine count floods outward: every closed, unannotated neighbor
    /// is revealed in turn under the same rule, until a mine is hit or no
    /// eligible cell remains. The win check runs after the flood settles.
    pub fn open(&mut self, pos: Position) -> (r: Option<OpenResult>)
        requires
            old(self).inv(),
        ensures
            final(self).inv(),
            final(self)@ == old(self)@.open_model(pos.0 as int, pos.1 as int),
            r == old(self)@.open_result(pos.0 as int, pos.1 as int),
    {
        let ghost pre = self@;
        let ghost gx = pos.0 as int;
        let ghost gy = pos.1 as int;
        if !matches!(self.game_state, GameState::InProgress) {
            return Option::None;
        }
        if !(pos.0 < self.width && pos.1 < self.height) {
            return Option::None;
        }
        let c = self.cell_at(pos.0, pos.1);
        if c.opened || !matches!(c.mark, Mark::Unmarked) {
            return Option::None;
        }
        proof {
            pre.lemma_idx_bounds(gx, gy);
        }
        let mc = self.neighboring_mines(pos);
        let fc = self.neighboring_flags(pos);
        self.set_cell(pos.0, pos.1, Cell { opened: true, ..c });
        let ghost m1 = self@;
        if c.mined {
            self.game_state = GameState::Loss;
            proof {
                let post = self@;
                assert(post == pre.open_model(gx, gy));
                assert(post.loss_cond()) by {
                    let i = pre.idx(gx, gy);
                    assert(0 <= i < post.cells.len() && post.cells[i].mined
                        && post.cells[i].opened);
                }
                assert forall|j: int|
                    0 <= j < post.cells.len() && (#[trigger] post.cells[j]).opened
                    implies post.cells[j].mark == Mark::Unmarked by {
                    if j != pre.idx(gx, gy) {
                        assert(post.cells[j] == pre.cells[j]);
                    }
                }
            }
            return Option::Some(OpenResult::Mine);
        }
        proof {
            // Revealing a safe cell neither creates nor removes a revealed
            // mine, so the game stays in progress for now.
            assert(m1.loss_cond() <==> pre.loss_cond()) by {
                let i = pre.idx(gx, gy);
                if m1.loss_cond() {
                    let j = choose|j: int|
                        0 <= j < m1.cells.len() && #[trigger] m1.cells[j].mined
                            && m1.cells[j].opened;
                    assert(j != i);
                    assert(pre.cells[j].mined && pre.cells[j].opened);
                }
                if pre.loss_cond() {
                    let j = choose|j: int|
                        0 <= j < pre.cells.len() && #[trigger] pre.cells[j].mined
                            && pre.cells[j].opened;
                    assert(j != i);
                    assert(m1.cells[j].mined && m1.cells[j].opened);
                }
            }
            assert forall|j: int|
                0 <= j < m1.cells.len() && (#[trigger] m1.cells[j]).opened
                implies m1.cells[j].mark == Mark::Unmarked by {
                if j != pre.idx(gx, gy) {
                    assert(m1.cells[j] == pre.cells[j]);
                }
            }
        }
        if mc == fc {
            let mut stack: Vec<Position> = Vec::new();
            self.push_neighbors(&mut stack, pos);
            let ghost target = BoardModel::cascade(m1, m1.push_seq(gx, gy));
            proof {
                assert(m1.push_seq(gx, gy) == pre.push_seq(gx, gy));
                assert(stack@ =~= m1.push_seq(gx, gy));
            }
            while stack.len() > 0
                invariant
                    self@.wf(),
                    self@.width == m1.width,
                    self@.height == m1.height,
                    BoardModel::cascade(self@, stack@) == target,
                decreases count_closed(self@.cells), stack@.len(),
            {
                let ghost prev = self@;
                let ghost prev_stack = stack@;
                let p = stack.pop().unwrap();
                let ghost px = p.0 as int;
                let ghost py = p.1 as int;
                proof {
                    assert(prev_stack.last() == p);
                    assert(stack@ =~= prev_stack.drop_last());
                }
                let mut eligible = false;
                if matches!(self.game_state, GameState::InProgress) && p.0 < self.width && p.1
                    < self.height {
                    let cq = self.cell_at(p.0, p.1);
                    if !cq.opened && matches!(cq.mark, Mark::Unmarked) {
                        eligible = true;
                    }
                }
                proof {
                    assert(eligible == prev.cascade_eligible(px, py));
                }
                if eligible {
                    let cq = self.cell_at(p.0, p.1);
                    let mcq = self.neighboring_mines(p);
                    let fcq = self.neighboring_flags(p);
                    proof {
                        prev.lemma_idx_bounds(px, py);
                        lemma_count_closed_update(
                            prev.cells,
                            prev.idx(px, py),
                            Cell { opened: true, ..prev.cell(px, py) },
                        );
                        lemma_count_bounds(prev.open_cell(px, py).cells);
                    }
                    self.set_cell(p.0, p.1, Cell { opened: true, ..cq });
                    if cq.mined {
                        self.game_state = GameState::Loss;
                        proof {
                            assert(self@ == prev.open_cell(px, py).with_state(GameState::Loss));
                        }
                    } else if mcq == fcq {
                        self.push_neighbors(&mut stack, p);
                        proof {
                            assert(self@ == prev.open_cell(px, py));
                            assert(self@.push_seq(px, py) == prev.push_seq(px, py));
                            assert(stack@ =~= prev_stack.drop_last() + prev.push_seq(px, py));
                        }
                    } else {
                        proof {
                            assert(self@ == prev.open_cell(px, py));
                        }
                    }
                }
                proof {
                    assert(BoardModel::cascade(self@, stack@) == BoardModel::cascade(
                        prev,
                        prev_stack,
                    ));
                }
            }
            proof {
                assert(BoardModel::cascade(self@, stack@) == self@);
            }
        }
        let ghost m2 = self@;
        proof {
            if mc == fc {
                assert(m2 == BoardModel::cascade(m1, m1.push_seq(gx, gy)));
                BoardModel::lemma_cascade_props(m1, m1.push_seq(gx, gy));
            } else {
                assert(m2 == m1);
            }
        }
        if matches!(self.game_state, GameState::InProgress) {
            if self.check_win() {
                self.game_state = GameState::Win;
            }
        }
        proof {
            let post = self@;
            assert(post == m2.recompute_win());
            assert(post == pre.open_model(gx, gy));
            // The invariant is restored: losses keep their witness, a win
            // promotion records exactly the win condition, and annotation
            // exclusivity survives the cascade.
            assert(post.inv()) by {
                assert(m2.state == GameState::Loss <==> m2.loss_cond());
                if post.state == GameState::Win {
                    assert(m2.state == GameState::InProgress && m2.win_cond());
                    assert(!m2.loss_cond());
                }
                if post.state == GameState::InProgress {
                    assert(!post.win_cond());
                }
            }
        }
        return Option::Some(OpenResult::NoMine(mc));
    }

    /// Cycles the annotation of a closed in-bounds cell one step through
    /// unmarked, flagged, questioned, unmarked; a no-op once the game has
    /// ended, on revealed cells and out of bounds. Setting a flag reruns
    /// the win check.
    pub fn flag(&mut self, pos: Position)
        requires
            old(self).inv(),
        ensures
            final(self).inv(),
            final(self)@ == old(self)@.flag_model(pos.0 as int, pos.1 as int),
    {
        if !matches!(self.game_state, GameState::InProgress) {
            return;
        }
        if !(pos.0 < self.width && pos.1 < self.height) {
            return;
        }
        let c = self.cell_at(pos.0, pos.1);
        if c.opened {
            return;
        }
        let ghost pre = self@;
        let ghost gx = pos.0 as int;
        let ghost gy = pos.1 as int;
        proof {
            pre.lemma_idx_bounds(gx, gy);
        }
        match c.mark {
            Mark::Unmarked => {
                self.set_cell(pos.0, pos.1, Cell { mark: Mark::Flagged, ..c });
                if self.check_win() {
                    self.game_state = GameState::Win;
                }
            },
            Mark::Flagged => {
                self.set_cell(pos.0, pos.1, Cell { mark: Mark::Questioned, ..c });
            },
            Mark::Questioned => {
                self.set_cell(pos.0, pos.1, Cell { mark: Mark::Unmarked, ..c });
            },
        }
        proof {
            let post = self@;
            assert(forall|i: int|
                0 <= i < post.cells.len() ==> (#[trigger] post.cells[i]).opened == pre.cells[i].opened
                    && post.cells[i].mined == pre.cells[i].mined);
            assert(post.loss_cond() <==> pre.loss_cond());
            if pre.win_cond() {
                assert forall|i: int|
                    0 <= i < post.cells.len() && !(#[trigger] post.cells[i]).mined
                    implies post.cells[i].opened by {
                    assert(pre.cells[i].mined == post.cells[i].mined);
                    assert(pre.cells[i].opened == post.cells[i].opened);
                }
            }
            if post.win_cond() {
                assert forall|i: int|
                    0 <= i < pre.cells.len() && !(#[trigger] pre.cells[i]).mined
                    implies pre.cells[i].opened by {
                    assert(pre.cells[i].mined == post.cells[i].mined);
                    assert(pre.cells[i].opened == post.cells[i].opened);
                }
            }
            assert(post.safe_exists() <==> pre.safe_exists());
            assert(final(self)@ == pre.flag_model(gx, gy));
        }
    }
}

/// A row of cells built without mines counts zero mines.
proof fn lemma_all_safe_count_zero(s: Seq<Cell>)
    requires
        forall|j: int| 0 <= j < s.len() ==> !(#[trigger] s[j]).mined,
    ensures
        count_mines(s) == 0,
    decreases s.len(),
{
    if s.len() > 0 {
        lemma_all_safe_count_zero(s.drop_last());
    }
}

} // verus!

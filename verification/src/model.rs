//! The mathematical model of a board: a ghost mirror of the grid together
//! with the specification-level rules of the game (cell lookup, neighbor
//! counts, the flood-fill cascade, win/loss conditions and the state
//! invariant). Every contract of the executable board speaks in terms of
//! this model.

use vstd::prelude::*;

use crate::minesweeper::{FieldState, GameState, Position};

verus! {

/// Player annotation on a closed cell.
#[derive(Debug, Clone, Copy, PartialEq, Eq, Structural)]
pub enum Mark {
    Unmarked,
    Flagged,
    Questioned,
}

/// One grid cell: whether it hides a mine, whether the player has revealed
/// it, and the player's annotation.
#[derive(Debug, Clone, Copy, PartialEq, Eq, Structural)]
pub struct Cell {
    pub mined: bool,
    pub opened: bool,
    pub mark: Mark,
}

/// Number of mined cells in a row of cells.
pub open spec fn count_mines(s: Seq<Cell>) -> int
    decreases s.len(),
{
    if s.len() == 0 {
        0
    } else {
        count_mines(s.drop_last()) + if s.last().mined {
            1int
        } else {
            0int
        }
    }
}

/// Number of flagged cells in a row of cells.
pub open spec fn count_flags(s: Seq<Cell>) -> int
    decreases s.len(),
{
    if s.len() == 0 {
        0
    } else {
        count_flags(s.drop_last()) + if s.last().mark == Mark::Flagged {
            1int
        } else {
            0int
        }
    }
}

/// Number of cells not yet opened in a row of cells.
pub open spec fn count_closed(s: Seq<Cell>) -> int
    decreases s.len(),
{
    if s.len() == 0 {
        0
    } else {
        count_closed(s.drop_last()) + if !s.last().opened {
            1int
        } else {
            0int
        }
    }
}

pub proof fn lemma_count_mines_push(s: Seq<Cell>, c: Cell)
    ensures
        count_mines(s.push(c)) == count_mines(s) + if c.mined {
            1int
        } else {
            0int
        },
{
    assert(s.push(c).drop_last() =~= s);
}

pub proof fn lemma_count_flags_push(s: Seq<Cell>, c: Cell)
    ensures
        count_flags(s.push(c)) == count_flags(s) + if c.mark == Mark::Flagged {
            1int
        } else {
            0int
        },
{
    assert(s.push(c).drop_last() =~= s);
}

pub proof fn lemma_count_closed_push(s: Seq<Cell>, c: Cell)
    ensures
        count_closed(s.push(c)) == count_closed(s) + if !c.opened {
            1int
        } else {
            0int
        },
{
    assert(s.push(c).drop_last() =~= s);
}

pub proof fn lemma_count_mines_update(s: Seq<Cell>, i: int, c: Cell)
    requires
        0 <= i < s.len(),
    ensures
        count_mines(s.update(i, c)) == count_mines(s) - (if s[i].mined {
            1int
        } else {
            0int
        }) + (if c.mined {
            1int
        } else {
            0int
        }),
    decreases s.len(),
{
    let t = s.update(i, c);
    if i == s.len() - 1 {
        assert(t.drop_last() =~= s.drop_last());
    } else {
        assert(t.drop_last() =~= s.drop_last().update(i, c));
        lemma_count_mines_update(s.drop_last(), i, c);
    }
}

pub proof fn lemma_count_flags_update(s: Seq<Cell>, i: int, c: Cell)
    requires
        0 <= i < s.len(),
    ensures
        count_flags(s.update(i, c)) == count_flags(s) - (if s[i].mark == Mark::Flagged {
            1int
        } else {
            0int
        }) + (if c.mark == Mark::Flagged {
            1int
        } else {
            0int
        }),
    decreases s.len(),
{
    let t = s.update(i, c);
    if i == s.len() - 1 {
        assert(t.drop_last() =~= s.drop_last());
    } else {
        assert(t.drop_last() =~= s.drop_last().update(i, c));
        lemma_count_flags_update(s.drop_last(), i, c);
    }
}

pub proof fn lemma_count_closed_update(s: Seq<Cell>, i: int, c: Cell)
    requires
        0 <= i < s.len(),
    ensures
        count_closed(s.update(i, c)) == count_closed(s) - (if !s[i].opened {
            1int
        } else {
            0int
        }) + (if !c.opened {
            1int
        } else {
            0int
        }),
    decreases s.len(),
{
    let t = s.update(i, c);
    if i == s.len() - 1 {
        assert(t.drop_last() =~= s.drop_last());
    } else {
        assert(t.drop_last() =~= s.drop_last().update(i, c));
        lemma_count_closed_update(s.drop_last(), i, c);
    }
}

pub proof fn lemma_count_bounds(s: Seq<Cell>)
    ensures
        0 <= count_mines(s) <= s.len(),
        0 <= count_flags(s) <= s.len(),
        0 <= count_closed(s) <= s.len(),
    decreases s.len(),
{
    if s.len() > 0 {
        lemma_count_bounds(s.drop_last());
    }
}

/// Ghost mirror of a whole board.
pub struct BoardModel {
    pub width: int,
    pub height: int,
    pub cells: Seq<Cell>,
    pub state: GameState,
}

impl BoardModel {
    /// Shape of a representable board: positive dimensions, one cell per
    /// grid position, and a grid that fits the machine's address space.
    pub open spec fn wf(self) -> bool {
        &&& 1 <= self.width <= usize::MAX
        &&& 1 <= self.height <= usize::MAX
        &&& self.width * self.height <= usize::MAX
        &&& self.cells.len() == self.width * self.height
    }

    pub open spec fn in_bounds(self, x: int, y: int) -> bool {
        0 <= x < self.width && 0 <= y < self.height
    }

    /// Row-major index of a position.
    pub open spec fn idx(self, x: int, y: int) -> int {
        y * self.width + x
    }

    pub open spec fn cell(self, x: int, y: int) -> Cell {
        self.cells[self.idx(x, y)]
    }

    pub open spec fn mined(self, x: int, y: int) -> bool {
        self.cell(x, y).mined
    }

    pub open spec fn opened(self, x: int, y: int) -> bool {
        self.cell(x, y).opened
    }

    pub open spec fn flagged(self, x: int, y: int) -> bool {
        self.cell(x, y).mark == Mark::Flagged
    }

    pub open spec fn questioned(self, x: int, y: int) -> bool {
        self.cell(x, y).mark == Mark::Questioned
    }

    /// An in-bounds position is inside the cell row, and its row-major
    /// index stays within the machine's integer range.
    pub proof fn lemma_idx_bounds(self, x: int, y: int)
        requires
            self.wf(),
            self.in_bounds(x, y),
        ensures
            0 <= self.idx(x, y) < self.cells.len(),
    {
        assert(y * self.width + x < self.width * self.height) by (nonlinear_arith)
            requires
                0 <= x < self.width,
                0 <= y < self.height,
        ;
        assert(0 <= y * self.width) by (nonlinear_arith)
            requires
                0 <= y,
                0 <= self.width,
        ;
    }

    /// Distinct in-bounds positions have distinct row-major indexes.
    pub proof fn lemma_idx_injective(self, x1: int, y1: int, x2: int, y2: int)
        requires
            self.wf(),
            self.in_bounds(x1, y1),
            self.in_bounds(x2, y2),
            self.idx(x1, y1) == self.idx(x2, y2),
        ensures
            x1 == x2 && y1 == y2,
    {
        assert(x1 == x2 && y1 == y2) by (nonlinear_arith)
            requires
                0 <= x1 < self.width,
                0 <= x2 < self.width,
                0 <= y1,
                0 <= y2,
                y1 * self.width + x1 == y2 * self.width + x2,
        ;
    }

    /// Every index into the cell row is the row-major index of exactly one
    /// in-bounds position, recovered by division and remainder.
    pub proof fn lemma_idx_inverse(self, j: int)
        requires
            self.wf(),
            0 <= j < self.cells.len(),
        ensures
            self.in_bounds(j % self.width, j / self.width),
            self.idx(j % self.width, j / self.width) == j,
    {
        vstd::arithmetic::div_mod::lemma_fundamental_div_mod(j, self.width);
        vstd::arithmetic::div_mod::lemma_mod_bound(j, self.width);
        vstd::arithmetic::div_mod::lemma_div_pos_is_pos(j, self.width);
        assert(j / self.width < self.height) by (nonlinear_arith)
            requires
                j < self.width * self.height,
                0 < self.width,
                0 <= j / self.width,
                j == self.width * (j / self.width) + j % self.width,
                0 <= j % self.width,
        ;
    }

    /// Indicator: an in-bounds mined cell at the given position.
    pub open spec fn mine_at(self, x: int, y: int) -> int {
        if self.in_bounds(x, y) && self.mined(x, y) {
            1
        } else {
            0
        }
    }

    /// Indicator: an in-bounds flagged cell at the given position.
    pub open spec fn flag_at(self, x: int, y: int) -> int {
        if self.in_bounds(x, y) && self.flagged(x, y) {
            1
        } else {
            0
        }
    }

    /// Indicator: an in-bounds cell not yet opened at the given position.
    pub open spec fn closed_at(self, x: int, y: int) -> int {
        if self.in_bounds(x, y) && !self.opened(x, y) {
            1
        } else {
            0
        }
    }

    /// Number of mines among the up-to-eight neighbors of a position.
    pub open spec fn nbr_mines(self, x: int, y: int) -> int {
        self.mine_at(x - 1, y - 1) + self.mine_at(x - 1, y) + self.mine_at(x - 1, y + 1)
            + self.mine_at(x, y - 1) + self.mine_at(x, y + 1) + self.mine_at(x + 1, y - 1)
            + self.mine_at(x + 1, y) + self.mine_at(x + 1, y + 1)
    }

    /// Number of flags among the up-to-eight neighbors of a position.
    pub open spec fn nbr_flags(self, x: int, y: int) -> int {
        self.flag_at(x - 1, y - 1) + self.flag_at(x - 1, y) + self.flag_at(x - 1, y + 1)
            + self.flag_at(x, y - 1) + self.flag_at(x, y + 1) + self.flag_at(x + 1, y - 1)
            + self.flag_at(x + 1, y) + self.flag_at(x + 1, y + 1)
    }

    /// Number of closed cells among the up-to-eight neighbors of a position.
    pub open spec fn nbr_closed(self, x: int, y: int) -> int {
        self.closed_at(x - 1, y - 1) + self.closed_at(x - 1, y) + self.closed_at(x - 1, y + 1)
            + self.closed_at(x, y - 1) + self.closed_at(x, y + 1) + self.closed_at(x + 1, y - 1)
            + self.closed_at(x + 1, y) + self.closed_at(x + 1, y + 1)
    }

    /// Two positions are neighbors: distinct, and adjacent in both
    /// coordinates (the Moore neighborhood).
    pub open spec fn adjacent(x1: int, y1: int, x2: int, y2: int) -> bool {
        &&& -1 <= x2 - x1 <= 1
        &&& -1 <= y2 - y1 <= 1
        &&& !(x1 == x2 && y1 == y2)
    }

    pub open spec fn nbr_one(self, x: int, y: int) -> Seq<Position> {
        if self.in_bounds(x, y) {
            seq![(x as usize, y as usize)]
        } else {
            Seq::empty()
        }
    }

    /// The in-bounds neighbors of a position, in the order the board
    /// enumerates them: by column, then by row.
    pub open spec fn nbr_seq(self, x: int, y: int) -> Seq<Position> {
        self.nbr_one(x - 1, y - 1) + self.nbr_one(x - 1, y) + self.nbr_one(x - 1, y + 1)
            + self.nbr_one(x, y - 1) + self.nbr_one(x, y + 1) + self.nbr_one(x + 1, y - 1)
            + self.nbr_one(x + 1, y) + self.nbr_one(x + 1, y + 1)
    }

    /// The in-bounds neighbors of a position in reverse enumeration order:
    /// the order in which the cascade pushes them onto its work stack, so
    /// that popping visits them in enumeration order.
    pub open spec fn push_seq(self, x: int, y: int) -> Seq<Position> {
        self.nbr_one(x + 1, y + 1) + self.nbr_one(x + 1, y) + self.nbr_one(x + 1, y - 1)
            + self.nbr_one(x, y + 1) + self.nbr_one(x, y - 1) + self.nbr_one(x - 1, y + 1)
            + self.nbr_one(x - 1, y) + self.nbr_one(x - 1, y - 1)
    }

    /// The board after revealing the cell at an in-bounds position.
    pub open spec fn open_cell(self, x: int, y: int) -> BoardModel {
        BoardModel {
            cells: self.cells.update(
                self.idx(x, y),
                Cell { opened: true, ..self.cell(x, y) },
            ),
            ..self
        }
    }

    /// The board with the annotation at an in-bounds position replaced.
    pub open spec fn set_mark(self, x: int, y: int, mark: Mark) -> BoardModel {
        BoardModel {
            cells: self.cells.update(
                self.idx(x, y),
                Cell { mark: mark, ..self.cell(x, y) },
            ),
            ..self
        }
    }

    pub open spec fn with_state(self, state: GameState) -> BoardModel {
        BoardModel { state: state, ..self }
    }

    /// A mine has been revealed somewhere on the board.
    pub open spec fn loss_cond(self) -> bool {
        exists|j: int|
            0 <= j < self.cells.len() && #[trigger] self.cells[j].mined && self.cells[j].opened
    }

    /// Every cell that hides no mine has been revealed.
    pub open spec fn win_cond(self) -> bool {
        forall|j: int|
            0 <= j < self.cells.len() && !(#[trigger] self.cells[j].mined)
                ==> self.cells[j].opened
    }

    /// At least one cell hides no mine.
    pub open spec fn safe_exists(self) -> bool {
        exists|j: int| 0 <= j < self.cells.len() && !(#[trigger] self.cells[j].mined)
    }

    /// State invariant of a board between moves: the shape holds, revealed
    /// cells carry no annotation, `Loss` holds exactly when a mine is
    /// revealed, and `Win` means every safe cell is revealed. On a board
    /// with at least one safe cell, `Win` holds exactly when every safe
    /// cell is revealed and no mine is. (A board whose every cell is mined
    /// satisfies the win condition vacuously the moment it is created, yet
    /// starts `InProgress`; hence the conditional form.)
    pub open spec fn inv(self) -> bool {
        &&& self.wf()
        &&& forall|j: int|
            0 <= j < self.cells.len() && #[trigger] self.cells[j].opened
                ==> self.cells[j].mark == Mark::Unmarked
        &&& (self.state == GameState::Loss <==> self.loss_cond())
        &&& (self.state == GameState::Win ==> self.win_cond() && !self.loss_cond())
        &&& (self.safe_exists() ==> (self.state == GameState::Win <==> self.win_cond()
            && !self.loss_cond()))
    }

    /// A position the cascade may reveal when it reaches it: the game is
    /// still running and the cell is in bounds, closed and unannotated.
    pub open spec fn cascade_eligible(self, x: int, y: int) -> bool {
        &&& self.wf()
        &&& self.state == GameState::InProgress
        &&& self.in_bounds(x, y)
        &&& !self.opened(x, y)
        &&& self.cell(x, y).mark == Mark::Unmarked
    }

    /// The flood-fill cascade, as a work stack discharged from the top.
    /// Popping an eligible cell reveals it; a revealed mine ends the game,
    /// a cell whose flag count matches its mine count pushes its neighbors.
    pub open spec fn cascade(m: BoardModel, stack: Seq<Position>) -> BoardModel
        decreases count_closed(m.cells), stack.len(),
            via BoardModel::cascade_decreases
    {
        if stack.len() == 0 {
            m
        } else {
            let p = stack.last();
            let rest = stack.drop_last();
            let x = p.0 as int;
            let y = p.1 as int;
            if !m.cascade_eligible(x, y) {
                Self::cascade(m, rest)
            } else {
                let m1 = m.open_cell(x, y);
                if m.mined(x, y) {
                    Self::cascade(m1.with_state(GameState::Loss), rest)
                } else if m.nbr_mines(x, y) == m.nbr_flags(x, y) {
                    Self::cascade(m1, rest + m.push_seq(x, y))
                } else {
                    Self::cascade(m1, rest)
                }
            }
        }
    }

    #[via_fn]
    proof fn cascade_decreases(m: BoardModel, stack: Seq<Position>) {
        lemma_count_bounds(m.cells);
        if stack.len() > 0 {
            let p = stack.last();
            let x = p.0 as int;
            let y = p.1 as int;
            if m.cascade_eligible(x, y) {
                m.lemma_idx_bounds(x, y);
                lemma_count_closed_update(
                    m.cells,
                    m.idx(x, y),
                    Cell { opened: true, ..m.cell(x, y) },
                );
                lemma_count_bounds(m.open_cell(x, y).cells);
            }
        }
    }

    /// What the cascade preserves: the shape and dimensions, every cell's
    /// mine and annotation, cells once revealed, the exclusivity of
    /// revelation and annotation, and the tie between `Loss` and a
    /// revealed mine; the state only ever moves from running to lost.
    pub proof fn lemma_cascade_props(m: BoardModel, stack: Seq<Position>)
        requires
            m.wf(),
            m.state == GameState::InProgress || m.state == GameState::Loss,
            m.state == GameState::Loss <==> m.loss_cond(),
            forall|j: int|
                0 <= j < m.cells.len() && (#[trigger] m.cells[j]).opened
                    ==> m.cells[j].mark == Mark::Unmarked,
        ensures
            BoardModel::cascade(m, stack).wf(),
            BoardModel::cascade(m, stack).width == m.width,
            BoardModel::cascade(m, stack).height == m.height,
            BoardModel::cascade(m, stack).cells.len() == m.cells.len(),
            forall|j: int|
                0 <= j < m.cells.len()
                    ==> (#[trigger] BoardModel::cascade(m, stack).cells[j]).mined
                        == m.cells[j].mined && BoardModel::cascade(m, stack).cells[j].mark
                        == m.cells[j].mark,
            forall|j: int|
                0 <= j < m.cells.len() && (#[trigger] m.cells[j]).opened
                    ==> BoardModel::cascade(m, stack).cells[j].opened,
            BoardModel::cascade(m, stack).state == GameState::InProgress || BoardModel::cascade(
                m,
                stack,
            ).state == GameState::Loss,
            m.state == GameState::Loss ==> BoardModel::cascade(m, stack).state == GameState::Loss,
            BoardModel::cascade(m, stack).state == GameState::Loss <==> BoardModel::cascade(
                m,
                stack,
            ).loss_cond(),
            forall|j: int|
                0 <= j < m.cells.len() && (#[trigger] BoardModel::cascade(m, stack).cells[j]).opened
                    ==> BoardModel::cascade(m, stack).cells[j].mark == Mark::Unmarked,
        decreases count_closed(m.cells), stack.len(),
    {
        lemma_count_bounds(m.cells);
        if stack.len() == 0 {
        } else {
            let p = stack.last();
            let rest = stack.drop_last();
            let x = p.0 as int;
            let y = p.1 as int;
            if !m.cascade_eligible(x, y) {
                Self::lemma_cascade_props(m, rest);
            } else {
                m.lemma_idx_bounds(x, y);
                let i = m.idx(x, y);
                lemma_count_closed_update(m.cells, i, Cell { opened: true, ..m.cell(x, y) });
                let m1 = m.open_cell(x, y);
                lemma_count_bounds(m1.cells);
                assert(forall|j: int|
                    0 <= j < m.cells.len() && j != i ==> #[trigger] m1.cells[j] == m.cells[j]);
                assert(m1.cells[i].mined == m.cells[i].mined && m1.cells[i].mark == m.cells[i].mark
                    && m1.cells[i].opened);
                if m.mined(x, y) {
                    let ml = m1.with_state(GameState::Loss);
                    assert(ml.loss_cond()) by {
                        assert(0 <= i < ml.cells.len() && ml.cells[i].mined && ml.cells[i].opened);
                    }
                    Self::lemma_cascade_props(ml, rest);
                } else if m.nbr_mines(x, y) == m.nbr_flags(x, y) {
                    assert(m1.loss_cond() <==> m.loss_cond()) by {
                        if m1.loss_cond() {
                            let j = choose|j: int|
                                0 <= j < m1.cells.len() && #[trigger] m1.cells[j].mined
                                    && m1.cells[j].opened;
                            assert(j != i);
                            assert(m.cells[j].mined && m.cells[j].opened);
                        }
                        if m.loss_cond() {
                            let j = choose|j: int|
                                0 <= j < m.cells.len() && #[trigger] m.cells[j].mined
                                    && m.cells[j].opened;
                            assert(j != i);
                            assert(m1.cells[j].mined && m1.cells[j].opened);
                        }
                    }
                    Self::lemma_cascade_props(m1, rest + m.push_seq(x, y));
                } else {
                    assert(m1.loss_cond() <==> m.loss_cond()) by {
                        if m1.loss_cond() {
                            let j = choose|j: int|
                                0 <= j < m1.cells.len() && #[trigger] m1.cells[j].mined
                                    && m1.cells[j].opened;
                            assert(j != i);
                            assert(m.cells[j].mined && m.cells[j].opened);
                        }
                        if m.loss_cond() {
                            let j = choose|j: int|
                                0 <= j < m.cells.len() && #[trigger] m.cells[j].mined
                                    && m.cells[j].opened;
                            assert(j != i);
                            assert(m1.cells[j].mined && m1.cells[j].opened);
                        }
                    }
                    Self::lemma_cascade_props(m1, rest);
                }
            }
        }
    }

    /// Neighbor counts depend only on the mines and annotations, which
    /// a reveal never touches: two boards of the same shape that agree
    /// on them cell for cell agree on every count.
    pub proof fn lemma_counts_stable(m1: BoardModel, m2: BoardModel, x: int, y: int)
        requires
            m1.wf(),
            m1.width == m2.width,
            m1.height == m2.height,
            m1.cells.len() == m2.cells.len(),
            forall|j: int|
                0 <= j < m1.cells.len() ==> (#[trigger] m2.cells[j]).mined == m1.cells[j].mined
                    && m2.cells[j].mark == m1.cells[j].mark,
        ensures
            m2.nbr_mines(x, y) == m1.nbr_mines(x, y),
            m2.nbr_flags(x, y) == m1.nbr_flags(x, y),
    {
        assert forall|u: int, v: int| #[trigger] m2.mine_at(u, v) == m1.mine_at(u, v) by {
            if m1.in_bounds(u, v) {
                m1.lemma_idx_bounds(u, v);
            }
        }
        assert forall|u: int, v: int| #[trigger] m2.flag_at(u, v) == m1.flag_at(u, v) by {
            if m1.in_bounds(u, v) {
                m1.lemma_idx_bounds(u, v);
            }
        }
    }

    /// Every in-bounds neighbor of a position is on the cascade's push
    /// list for that position.
    pub proof fn lemma_push_seq_contains(self, x: int, y: int, nx: int, ny: int)
        requires
            self.wf(),
            self.in_bounds(nx, ny),
            BoardModel::adjacent(x, y, nx, ny),
        ensures
            self.push_seq(x, y).contains(((nx as usize), (ny as usize))),
    {
        let p = ((nx as usize), (ny as usize));
        let s = self.push_seq(x, y);
        let l1 = self.nbr_one(x + 1, y + 1).len() as int;
        let l2 = self.nbr_one(x + 1, y).len() as int;
        let l3 = self.nbr_one(x + 1, y - 1).len() as int;
        let l4 = self.nbr_one(x, y + 1).len() as int;
        let l5 = self.nbr_one(x, y - 1).len() as int;
        let l6 = self.nbr_one(x - 1, y + 1).len() as int;
        let l7 = self.nbr_one(x - 1, y).len() as int;
        if nx == x + 1 && ny == y + 1 {
            assert(s[0] == p);
        } else if nx == x + 1 && ny == y {
            assert(s[l1] == p);
        } else if nx == x + 1 && ny == y - 1 {
            assert(s[l1 + l2] == p);
        } else if nx == x && ny == y + 1 {
            assert(s[l1 + l2 + l3] == p);
        } else if nx == x && ny == y - 1 {
            assert(s[l1 + l2 + l3 + l4] == p);
        } else if nx == x - 1 && ny == y + 1 {
            assert(s[l1 + l2 + l3 + l4 + l5] == p);
        } else if nx == x - 1 && ny == y {
            assert(s[l1 + l2 + l3 + l4 + l5 + l6] == p);
        } else {
            assert(nx == x - 1 && ny == y - 1);
            assert(s[l1 + l2 + l3 + l4 + l5 + l6 + l7] == p);
        }
    }

    /// Every in-bounds neighbor of a position is on its enumeration
    /// list.
    pub proof fn lemma_nbr_seq_contains(self, x: int, y: int, nx: int, ny: int)
        requires
            self.wf(),
            self.in_bounds(nx, ny),
            BoardModel::adjacent(x, y, nx, ny),
        ensures
            self.nbr_seq(x, y).contains(((nx as usize), (ny as usize))),
    {
        let p = ((nx as usize), (ny as usize));
        let s = self.nbr_seq(x, y);
        let l1 = self.nbr_one(x - 1, y - 1).len() as int;
        let l2 = self.nbr_one(x - 1, y).len() as int;
        let l3 = self.nbr_one(x - 1, y + 1).len() as int;
        let l4 = self.nbr_one(x, y - 1).len() as int;
        let l5 = self.nbr_one(x, y + 1).len() as int;
        let l6 = self.nbr_one(x + 1, y - 1).len() as int;
        let l7 = self.nbr_one(x + 1, y).len() as int;
        if nx == x - 1 && ny == y - 1 {
            assert(s[0] == p);
        } else if nx == x - 1 && ny == y {
            assert(s[l1] == p);
        } else if nx == x - 1 && ny == y + 1 {
            assert(s[l1 + l2] == p);
        } else if nx == x && ny == y - 1 {
            assert(s[l1 + l2 + l3] == p);
        } else if nx == x && ny == y + 1 {
            assert(s[l1 + l2 + l3 + l4] == p);
        } else if nx == x + 1 && ny == y - 1 {
            assert(s[l1 + l2 + l3 + l4 + l5] == p);
        } else if nx == x + 1 && ny == y {
            assert(s[l1 + l2 + l3 + l4 + l5 + l6] == p);
        } else {
            assert(nx == x + 1 && ny == y + 1);
            assert(s[l1 + l2 + l3 + l4 + l5 + l6 + l7] == p);
        }
    }

    /// Everything on the enumeration list of a position is one of its
    /// in-bounds neighbors.
    pub proof fn lemma_nbr_seq_elements(self, x: int, y: int, i: int)
        requires
            self.wf(),
            0 <= i < self.nbr_seq(x, y).len(),
        ensures
            self.in_bounds(
                self.nbr_seq(x, y)[i].0 as int,
                self.nbr_seq(x, y)[i].1 as int,
            ),
            BoardModel::adjacent(
                x,
                y,
                self.nbr_seq(x, y)[i].0 as int,
                self.nbr_seq(x, y)[i].1 as int,
            ),
    {
    }

    /// While no mine is revealed, every mined cell is still closed; so
    /// around a cell whose mine count equals its closed count, every
    /// closed neighbor must be mined.
    pub proof fn lemma_full_count_pins(self, qx: int, qy: int, px: int, py: int)
        requires
            self.inv(),
            !self.loss_cond(),
            self.in_bounds(qx, qy),
            self.nbr_mines(qx, qy) == self.nbr_closed(qx, qy),
            BoardModel::adjacent(qx, qy, px, py),
            self.in_bounds(px, py),
            !self.opened(px, py),
        ensures
            self.mined(px, py),
    {
        assert forall|u: int, v: int| #[trigger] self.mine_at(u, v) <= self.closed_at(u, v) by {
            if self.in_bounds(u, v) && self.mined(u, v) {
                self.lemma_idx_bounds(u, v);
                if self.opened(u, v) {
                    assert(self.cells[self.idx(u, v)].mined && self.cells[self.idx(u, v)].opened);
                    assert(self.loss_cond());
                }
            }
        }
        self.lemma_idx_bounds(px, py);
        assert(self.closed_at(px, py) == 1);
        assert(self.mine_at(px, py) == 1);
    }

    /// A position the `open` mutator accepts: same as cascade eligibility.
    pub open spec fn openable(self, x: int, y: int) -> bool {
        self.cascade_eligible(x, y)
    }

    /// The win check run after a mutation: promotes a running game to
    /// `Win` once every safe cell is revealed.
    pub open spec fn recompute_win(self) -> BoardModel {
        if self.state == GameState::InProgress && self.win_cond() {
            self.with_state(GameState::Win)
        } else {
            self
        }
    }

    /// The board after `open` at a position: a no-op unless the position
    /// is openable; a mine ends the game at once, without cascading; a
    /// safe cell cascades when its flag count matches its mine count, and
    /// the win check runs after the cascade settles.
    pub open spec fn open_model(self, x: int, y: int) -> BoardModel {
        if !self.openable(x, y) {
            self
        } else {
            let m1 = self.open_cell(x, y);
            if self.mined(x, y) {
                m1.with_state(GameState::Loss)
            } else if self.nbr_mines(x, y) == self.nbr_flags(x, y) {
                Self::cascade(m1, self.push_seq(x, y)).recompute_win()
            } else {
                m1.recompute_win()
            }
        }
    }

    /// What `open` reports: nothing for a no-op, the mine for a loss, and
    /// the neighboring-mine count for a safe reveal.
    pub open spec fn open_result(self, x: int, y: int) -> Option<crate::minesweeper::OpenResult> {
        if !self.openable(x, y) {
            Option::None
        } else if self.mined(x, y) {
            Option::Some(crate::minesweeper::OpenResult::Mine)
        } else {
            Option::Some(crate::minesweeper::OpenResult::NoMine(self.nbr_mines(x, y) as u8))
        }
    }

    /// All positions of the grid, as a set.
    pub open spec fn grid_positions(self) -> Set<(int, int)> {
        Set::new(|p: (int, int)| self.in_bounds(p.0, p.1))
    }

    /// The positions that hide a mine.
    pub open spec fn mined_positions(self) -> Set<(int, int)> {
        Set::new(|p: (int, int)| self.in_bounds(p.0, p.1) && self.mined(p.0, p.1))
    }

    /// The positions the player has revealed.
    pub open spec fn opened_positions(self) -> Set<(int, int)> {
        Set::new(|p: (int, int)| self.in_bounds(p.0, p.1) && self.opened(p.0, p.1))
    }

    /// The player-facing counter beside the board: the absolute
    /// difference between the number of mines and the number of flags,
    /// which cannot underflow however many flags are placed.
    pub open spec fn remaining(self) -> int {
        let cm = count_mines(self.cells);
        let cf = count_flags(self.cells);
        if cm >= cf {
            cm - cf
        } else {
            cf - cm
        }
    }

    /// The display classification of a position. While the game runs,
    /// mines stay hidden and only the player's own information shows;
    /// once it has ended, mines and wrong flags are exposed. Out-of-bounds
    /// positions show as unknown.
    pub open spec fn field_state_model(self, x: int, y: int) -> FieldState {
        if !self.in_bounds(x, y) {
            FieldState::Unknown
        } else if self.state == GameState::InProgress {
            if self.opened(x, y) {
                FieldState::Open(self.nbr_mines(x, y) as u8)
            } else if self.flagged(x, y) {
                FieldState::Flagged
            } else if self.questioned(x, y) {
                FieldState::Question
            } else {
                FieldState::Unknown
            }
        } else {
            if self.mined(x, y) && self.opened(x, y) {
                FieldState::MineDetonated
            } else if self.mined(x, y) {
                FieldState::MineRevealed
            } else if self.flagged(x, y) {
                FieldState::NoMine
            } else if self.opened(x, y) {
                FieldState::Open(self.nbr_mines(x, y) as u8)
            } else if self.questioned(x, y) {
                FieldState::Question
            } else {
                FieldState::Unknown
            }
        }
    }

    /// The board after `flag` at a position: a no-op unless the game is
    /// running and the cell is in bounds and closed; otherwise the
    /// annotation advances one step in the cycle unmarked, flagged,
    /// questioned, unmarked, and the win check runs after a flag is set.
    pub open spec fn flag_model(self, x: int, y: int) -> BoardModel {
        if self.state != GameState::InProgress || !self.wf() || !self.in_bounds(x, y)
            || self.opened(x, y) {
            self
        } else {
            match self.cell(x, y).mark {
                Mark::Unmarked => self.set_mark(x, y, Mark::Flagged).recompute_win(),
                Mark::Flagged => self.set_mark(x, y, Mark::Questioned),
                Mark::Questioned => self.set_mark(x, y, Mark::Unmarked),
            }
        }
    }
}

} // verus!

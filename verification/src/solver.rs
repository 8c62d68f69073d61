//! The probabilistic solver: a constraint-based inference engine that,
//! from the currently revealed information, computes for every cell the
//! chance that it is mined, and recommends a next move. It only ever
//! reads the board; probabilities are exact rationals.

use vstd::prelude::*;

use crate::minesweeper::{GameState, Minesweeper, Position};
use crate::model::BoardModel;

verus! {

/// An exact probability: a fraction with a positive denominator. The
/// fraction is kept unreduced, exactly as the inference computed it.
#[derive(Debug, Clone, Copy, PartialEq, Eq, Structural)]
pub struct Chance {
    pub num: u64,
    pub den: u64,
}

/// A mine chance for one cell, tagged by whether it derives from local
/// deductive information or falls back to the uniform base rate.
#[derive(Debug, Clone, Copy, PartialEq, Eq, Structural)]
pub enum MineChance {
    WithInformation(Chance),
    NoInformation(Chance),
}

/// The solver's recommendation: open a cell, flag a cell, or nothing.
#[derive(Debug, Clone, Copy, PartialEq, Eq)]
pub enum SolverStep {
    Open(Position),
    Flag(Position),
    NoStep,
}

/// Probability zero or below: a cell certainly safe.
pub open spec fn chance_le_zero(c: Chance) -> bool {
    c.num == 0
}

/// Probability one or above: a cell certainly mined.
pub open spec fn chance_ge_one(c: Chance) -> bool {
    c.num >= c.den
}

/// Fraction order, by cross multiplication.
pub open spec fn chance_lt(a: Chance, b: Chance) -> bool {
    a.num * b.den < b.num * a.den
}

/// Whether a chance carries local deductive information.
pub open spec fn has_info(c: MineChance) -> bool {
    match c {
        MineChance::WithInformation(_) => true,
        MineChance::NoInformation(_) => false,
    }
}

/// The fraction inside a chance, whichever its tag.
pub open spec fn chance_of(c: MineChance) -> Chance {
    match c {
        MineChance::WithInformation(v) => v,
        MineChance::NoInformation(v) => v,
    }
}

/// The neighbor scan behind the per-cell inference, walking the open,
/// unmined neighbors of a cell in enumeration order. A neighbor whose
/// flags account for all its mines proves the cell safe; one whose
/// closed cells are all mined proves it mined; any other contributes the
/// local estimate mines/closed to a running sum of fractions, kept as
/// numerator `a` over denominator `b` with `k` contributions. When no
/// certainty interrupts, the result is the arithmetic mean of the
/// estimates, or the board-wide base rate when nothing contributed. (A
/// neighbor with no closed cells at all, possible only beside a revealed
/// mine after a loss, is skipped: its estimate has no denominator.)
pub open spec fn scan_model(m: BoardModel, rest: Seq<Position>, a: int, b: int, k: int) -> MineChance
    decreases rest.len(),
{
    if rest.len() == 0 {
        if k > 0 {
            MineChance::WithInformation(Chance { num: a as u64, den: (b * k) as u64 })
        } else {
            MineChance::NoInformation(
                Chance { num: m.remaining() as u64, den: (m.width * m.height) as u64 },
            )
        }
    } else {
        let p = rest[0];
        let nx = p.0 as int;
        let ny = p.1 as int;
        if m.in_bounds(nx, ny) && m.opened(nx, ny) && !m.mined(nx, ny) {
            let mc = m.nbr_mines(nx, ny);
            let cc = m.nbr_closed(nx, ny);
            let fc = m.nbr_flags(nx, ny);
            if mc == fc {
                MineChance::WithInformation(Chance { num: 0, den: 1 })
            } else if mc == cc {
                MineChance::WithInformation(Chance { num: 1, den: 1 })
            } else if cc > 0 {
                scan_model(m, rest.drop_first(), a * cc + mc * b, b * cc, k + 1)
            } else {
                scan_model(m, rest.drop_first(), a, b, k)
            }
        } else {
            scan_model(m, rest.drop_first(), a, b, k)
        }
    }
}

/// The chance that a position is mined, inferred from the board alone:
/// out-of-bounds and revealed safe cells are certainly safe, flagged
/// cells certainly mined, and anything else is judged by its neighbors.
/// A revealed mine (possible after a loss) is not declared safe but
/// falls through to the scan, so the board can be reviewed honestly.
pub open spec fn chance_model(m: BoardModel, x: int, y: int) -> MineChance {
    if !m.in_bounds(x, y) {
        MineChance::WithInformation(Chance { num: 0, den: 1 })
    } else if m.opened(x, y) && !m.mined(x, y) {
        MineChance::WithInformation(Chance { num: 0, den: 1 })
    } else if m.flagged(x, y) {
        MineChance::WithInformation(Chance { num: 1, den: 1 })
    } else {
        scan_model(m, m.nbr_seq(x, y), 0, 1, 0)
    }
}

/// The position of a row-major cell index.
pub open spec fn pos_at(m: BoardModel, j: int) -> Position {
    ((j % m.width) as usize, (j / m.width) as usize)
}

/// The chance of the cell at a row-major index.
pub open spec fn chance_at(m: BoardModel, j: int) -> MineChance {
    chance_model(m, j % m.width, j / m.width)
}

/// Upper bound on the scan's denominator after `k` contributions: each
/// contribution multiplies it by at most eight.
pub open spec fn scan_den_bound(k: int) -> int
    decreases k,
{
    if k <= 0 {
        1
    } else {
        8 * scan_den_bound(k - 1)
    }
}

/// Number of cells on a board.
pub open spec fn total_cells(m: BoardModel) -> int {
    m.width * m.height
}

/// The certain move, if any, that the cell at a row-major index offers:
/// flag it when its chance has reached one and it is not yet flagged,
/// open it when its chance is zero and it is not yet open.
pub open spec fn cert_at(m: BoardModel, j: int) -> Option<SolverStep> {
    let c = chance_of(chance_at(m, j));
    let x = j % m.width;
    let y = j / m.width;
    if chance_ge_one(c) && !m.flagged(x, y) {
        Option::Some(SolverStep::Flag(pos_at(m, j)))
    } else if chance_le_zero(c) && !m.opened(x, y) {
        Option::Some(SolverStep::Open(pos_at(m, j)))
    } else {
        Option::None
    }
}

/// The first certain move in row-major order among the cells whose
/// chance carries the wanted kind of information, from index `j` on.
pub open spec fn find_cert(m: BoardModel, info: bool, j: int) -> Option<SolverStep>
    decreases total_cells(m) - j,
{
    if j < 0 || j >= total_cells(m) {
        Option::None
    } else if has_info(chance_at(m, j)) == info && cert_at(m, j) is Some {
        cert_at(m, j)
    } else {
        find_cert(m, info, j + 1)
    }
}

/// Whether the cell at a row-major index can be guessed in the pass for
/// the given kind of information: its chance has that tag and it is
/// neither open nor flagged.
pub open spec fn guess_candidate(m: BoardModel, j: int, info: bool) -> bool {
    let x = j % m.width;
    let y = j / m.width;
    has_info(chance_at(m, j)) == info && !m.opened(x, y) && !m.flagged(x, y)
}

/// One step of best-guess selection. An informed candidate displaces an
/// uninformed best outright and an informed best only at strictly lower
/// chance; an uninformed candidate never displaces an informed best.
pub open spec fn better_guess(m: BoardModel, j: int, best: Option<int>, info: bool) -> Option<
    int,
> {
    if !guess_candidate(m, j, info) {
        best
    } else {
        match best {
            Option::None => Option::Some(j),
            Option::Some(bj) => {
                let cb = chance_at(m, bj);
                if info {
                    if has_info(cb) {
                        if chance_lt(chance_of(chance_at(m, j)), chance_of(cb)) {
                            Option::Some(j)
                        } else {
                            best
                        }
                    } else {
                        Option::Some(j)
                    }
                } else {
                    if !has_info(cb) {
                        if chance_lt(chance_of(chance_at(m, j)), chance_of(cb)) {
                            Option::Some(j)
                        } else {
                            best
                        }
                    } else {
                        best
                    }
                }
            },
        }
    }
}

/// The best guess after one pass over the cells in row-major order,
/// starting from index `j` with a given best so far.
pub open spec fn scan_guess(m: BoardModel, info: bool, j: int, best: Option<int>) -> Option<int>
    decreases total_cells(m) - j,
{
    if j < 0 || j >= total_cells(m) {
        best
    } else {
        scan_guess(m, info, j + 1, better_guess(m, j, best, info))
    }
}

/// The solver's recommendation for a board, in strict priority order:
/// nothing once the game has ended; else the first certain move among
/// informed chances, then among uninformed ones; else the best guess,
/// informed candidates before uninformed, lower chance first; nothing
/// when no cell can be guessed at all.
pub open spec fn select_model(m: BoardModel) -> SolverStep {
    if m.state != GameState::InProgress {
        SolverStep::NoStep
    } else if find_cert(m, true, 0) is Some {
        find_cert(m, true, 0)->Some_0
    } else if find_cert(m, false, 0) is Some {
        find_cert(m, false, 0)->Some_0
    } else {
        let g = scan_guess(m, false, 0, scan_guess(m, true, 0, Option::None));
        if g is Some {
            SolverStep::Open(pos_at(m, g->Some_0))
        } else {
            SolverStep::NoStep
        }
    }
}

/// Ghost mirror of a solver: the dimensions of the board it last read
/// and one chance per cell, in row-major order.
pub struct SolverModel {
    pub width: int,
    pub height: int,
    pub field: Seq<MineChance>,
}

/// The solver: a mapping from position to inferred mine chance,
/// recomputed from a snapshot of the board on each recommendation.
#[derive(Debug)]
pub struct Solver {
    width: usize,
    height: usize,
    field: Vec<MineChance>,
}

impl View for Solver {
    type V = SolverModel;

    closed spec fn view(&self) -> SolverModel {
        SolverModel { width: self.width as int, height: self.height as int, field: self.field@ }
    }
}

impl Solver {
    /// One chance per cell of the grid the solver last read.
    pub open spec fn inv(&self) -> bool {
        &&& self@.field.len() == self@.width * self@.height
        &&& self@.width * self@.height <= usize::MAX
    }

    /// The stored field matches the given board: same grid, and one
    /// freshly inferred chance per cell.
    pub open spec fn matches_board(&self, m: BoardModel) -> bool {
        &&& self@.width == m.width
        &&& self@.height == m.height
        &&& self@.field.len() == m.width * m.height
        &&& forall|j: int|
            0 <= j < self@.field.len() ==> #[trigger] self@.field[j] == chance_at(m, j)
    }

    /// Creates a solver with nothing inferred yet.
    pub fn new() -> (r: Solver)
        ensures
            r.inv(),
            r@.width == 0,
            r@.height == 0,
            r@.field.len() == 0,
    {
        Solver { width: 0, height: 0, field: Vec::new() }
    }

    /// The inferred chance for a position: the stored entry, or a
    /// no-information zero for positions outside the grid last read.
    pub fn get_mine_chance(&self, pos: Position) -> (r: MineChance)
        requires
            self.inv(),
        ensures
            pos.0 < self@.width && pos.1 < self@.height ==> r == self@.field[(pos.1 as int)
                * self@.width + (pos.0 as int)],
            !(pos.0 < self@.width && pos.1 < self@.height) ==> r
                == MineChance::NoInformation(Chance { num: 0, den: 1 }),
    {
        if pos.0 < self.width && pos.1 < self.height {
            proof {
                assert((pos.1 as int) * self@.width + (pos.0 as int) < self@.width * self@.height
                    && 0 <= (pos.1 as int) * self@.width) by (nonlinear_arith)
                    requires
                        0 <= (pos.0 as int) < self@.width,
                        0 <= (pos.1 as int) < self@.height,
                ;
            }
            self.field[pos.1 * self.width + pos.0]
        } else {
            MineChance::NoInformation(Chance { num: 0, den: 1 })
        }
    }

    /// Infers the chance that one position is mined, from the board's
    /// revealed information alone.
    #[verifier::rlimit(50)]
    fn calculate_mine_chance(&self, game: &Minesweeper, pos: Position) -> (r: MineChance)
        requires
            game.inv(),
        ensures
            r == chance_model(game@, pos.0 as int, pos.1 as int),
    {
        let ghost m = game@;
        let ghost gx = pos.0 as int;
        let ghost gy = pos.1 as int;
        if !game.is_in_bounds(pos) {
            return MineChance::WithInformation(Chance { num: 0, den: 1 });
        }
        if game.is_open(pos) && !game.is_mined(pos) {
            return MineChance::WithInformation(Chance { num: 0, den: 1 });
        }
        if game.is_flagged(pos) {
            return MineChance::WithInformation(Chance { num: 1, den: 1 });
        }
        let nbrs = game.neighboring_fields_iter(pos);
        let n = nbrs.len();
        proof {
            assert(n <= 8);
            assert(chance_model(m, gx, gy) == scan_model(m, nbrs@, 0, 1, 0));
            assert(nbrs@.skip(0) =~= nbrs@);
        }
        let mut a: u64 = 0;
        let mut b: u64 = 1;
        let mut k: u64 = 0;
        let mut i: usize = 0;
        while i < n
            invariant
                game.inv(),
                m == game@,
                n == nbrs@.len(),
                n <= 8,
                i <= n,
                k <= i,
                1 <= b,
                b <= scan_den_bound(k as int),
                a <= 8 * k * b,
                chance_model(game@, pos.0 as int, pos.1 as int) == scan_model(m, nbrs@, 0, 1, 0),
                scan_model(m, nbrs@.skip(i as int), a as int, b as int, k as int) == scan_model(
                    m,
                    nbrs@,
                    0,
                    1,
                    0,
                ),
            decreases n - i,
        {
            let p = nbrs[i];
            let ghost rest = nbrs@.skip(i as int);
            proof {
                assert(rest[0] == nbrs@[i as int]);
                assert(rest.drop_first() =~= nbrs@.skip(i as int + 1));
            }
            if game.is_open(p) && !game.is_mined(p) {
                let mc = game.neighboring_mines(p);
                let cc = game.neighboring_closed_fields(p);
                let fc = game.neighboring_flags(p);
                proof {
                    assert(mc <= 8 && cc <= 8 && fc <= 8);
                }
                if mc == fc {
                    proof {
                        assert(scan_model(m, rest, a as int, b as int, k as int)
                            == MineChance::WithInformation(Chance { num: 0, den: 1 }));
                    }
                    return MineChance::WithInformation(Chance { num: 0, den: 1 });
                }
                if mc == cc {
                    proof {
                        assert(scan_model(m, rest, a as int, b as int, k as int)
                            == MineChance::WithInformation(Chance { num: 1, den: 1 }));
                    }
                    return MineChance::WithInformation(Chance { num: 1, den: 1 });
                }
                if cc > 0 {
                    proof {
                        assert(scan_den_bound(k as int + 1) == 8 * scan_den_bound(k as int));
                        lemma_scan_den_bound_at_most(k as int);
                        lemma_scan_den_bound_at_most(k as int + 1);
                        assert(1 <= b * cc && b * cc <= scan_den_bound(k as int + 1))
                            by (nonlinear_arith)
                            requires
                                1 <= cc <= 8,
                                1 <= b <= scan_den_bound(k as int),
                                scan_den_bound(k as int + 1) == 8 * scan_den_bound(k as int),
                        ;
                        assert(a * cc + mc * b <= 8 * (k + 1) * (b * cc)) by (nonlinear_arith)
                            requires
                                0 <= a <= 8 * k * b,
                                1 <= cc <= 8,
                                0 <= mc <= 8,
                                1 <= b,
                                0 <= k,
                        ;
                        assert(8 * (k + 1) * (b * cc) <= 8 * 9 * 16777216) by (nonlinear_arith)
                            requires
                                0 <= k + 1 <= 9,
                                1 <= b * cc <= 16777216,
                        ;
                        assert(scan_model(m, rest, a as int, b as int, k as int) == scan_model(
                            m,
                            rest.drop_first(),
                            (a as int) * cc + mc * b,
                            (b as int) * cc,
                            k as int + 1,
                        ));
                    }
                    a = a * (cc as u64) + (mc as u64) * b;
                    b = b * (cc as u64);
                    k = k + 1;
                } else {
                    proof {
                        assert(scan_model(m, rest, a as int, b as int, k as int) == scan_model(
                            m,
                            rest.drop_first(),
                            a as int,
                            b as int,
                            k as int,
                        ));
                    }
                }
            }
            i = i + 1;
        }
        proof {
            assert(nbrs@.skip(n as int) =~= Seq::<Position>::empty());
        }
        if k > 0 {
            proof {
                lemma_scan_den_bound_at_most(k as int);
                assert(b * k <= 16777216 * 8) by (nonlinear_arith)
                    requires
                        1 <= b <= 16777216,
                        1 <= k <= 8,
                ;
            }
            return MineChance::WithInformation(Chance { num: a, den: b * k });
        }
        let rm = game.remaining_mines();
        let w = game.width();
        let h = game.height();
        MineChance::NoInformation(Chance { num: rm as u64, den: (w * h) as u64 })
    }

    /// Recomputes the whole field from a snapshot of the board: one
    /// freshly inferred chance per cell, in row-major order.
    fn calculate_field(&mut self, game: &Minesweeper)
        requires
            game.inv(),
        ensures
            final(self).inv(),
            final(self).matches_board(game@),
    {
        let w = game.width();
        let h = game.height();
        let total = w * h;
        self.width = w;
        self.height = h;
        self.field = Vec::new();
        let mut j: usize = 0;
        while j < total
            invariant
                game.inv(),
                w == game@.width,
                h == game@.height,
                total == game@.width * game@.height,
                self@.width == game@.width,
                self@.height == game@.height,
                self@.field.len() == j,
                j <= total,
                forall|i: int| 0 <= i < j ==> #[trigger] self@.field[i] == chance_at(game@, i),
            decreases total - j,
        {
            let x = j % w;
            let y = j / w;
            let c = self.calculate_mine_chance(game, (x, y));
            proof {
                assert(c == chance_at(game@, j as int));
            }
            self.field.push(c);
            j = j + 1;
        }
    }

    /// Scans the field in row-major order for the first certain move
    /// among the cells whose chance carries the wanted kind of
    /// information.
    fn find_certain(&self, game: &Minesweeper, want_info: bool) -> (r: Option<SolverStep>)
        requires
            game.inv(),
            self.inv(),
            self.matches_board(game@),
        ensures
            r == find_cert(game@, want_info, 0),
    {
        let ghost m = game@;
        let total = self.field.len();
        let mut j: usize = 0;
        while j < total
            invariant
                game.inv(),
                self.inv(),
                self.matches_board(game@),
                m == game@,
                total == self@.field.len(),
                j <= total,
                find_cert(m, want_info, j as int) == find_cert(m, want_info, 0),
            decreases total - j,
        {
            let c = self.field[j];
            let ci = matches!(c, MineChance::WithInformation(_));
            let x = j % self.width;
            let y = j / self.width;
            proof {
                m.lemma_idx_inverse(j as int);
                assert(chance_at(m, j as int) == c);
            }
            if ci == want_info {
                let v = match c {
                    MineChance::WithInformation(v) => v,
                    MineChance::NoInformation(v) => v,
                };
                if v.num >= v.den && !game.is_flagged((x, y)) {
                    proof {
                        assert(cert_at(m, j as int) == Option::Some(
                            SolverStep::Flag(pos_at(m, j as int)),
                        ));
                    }
                    return Option::Some(SolverStep::Flag((x, y)));
                }
                if v.num == 0 && !game.is_open((x, y)) {
                    proof {
                        assert(cert_at(m, j as int) == Option::Some(
                            SolverStep::Open(pos_at(m, j as int)),
                        ));
                    }
                    return Option::Some(SolverStep::Open((x, y)));
                }
            }
            proof {
                assert(find_cert(m, want_info, j as int) == find_cert(m, want_info, j as int + 1));
            }
            j = j + 1;
        }
        Option::None
    }

    /// One best-guess pass over the field in row-major order, refining
    /// the best candidate carried in from an earlier pass.
    fn scan_guess_pass(&self, game: &Minesweeper, want_info: bool, best0: Option<usize>) -> (r:
        Option<usize>)
        requires
            game.inv(),
            self.inv(),
            self.matches_board(game@),
            best0 is Some ==> best0->Some_0 < self@.field.len(),
        ensures
            opt_as_int(r) == scan_guess(game@, want_info, 0, opt_as_int(best0)),
            r is Some ==> r->Some_0 < self@.field.len(),
    {
        let ghost m = game@;
        let total = self.field.len();
        let mut best = best0;
        let mut j: usize = 0;
        while j < total
            invariant
                game.inv(),
                self.inv(),
                self.matches_board(game@),
                m == game@,
                total == self@.field.len(),
                j <= total,
                best is Some ==> best->Some_0 < self@.field.len(),
                scan_guess(m, want_info, j as int, opt_as_int(best)) == scan_guess(
                    m,
                    want_info,
                    0,
                    opt_as_int(best0),
                ),
            decreases total - j,
        {
            let ghost prev_best = best;
            let c = self.field[j];
            let ci = matches!(c, MineChance::WithInformation(_));
            let x = j % self.width;
            let y = j / self.width;
            proof {
                m.lemma_idx_inverse(j as int);
                assert(chance_at(m, j as int) == c);
            }
            let mut take = false;
            if ci == want_info && !game.is_open((x, y)) && !game.is_flagged((x, y)) {
                match best {
                    Option::None => {
                        take = true;
                    },
                    Option::Some(bj) => {
                        let cb = self.field[bj];
                        let cbi = matches!(cb, MineChance::WithInformation(_));
                        let vj = match c {
                            MineChance::WithInformation(v) => v,
                            MineChance::NoInformation(v) => v,
                        };
                        let vb = match cb {
                            MineChance::WithInformation(v) => v,
                            MineChance::NoInformation(v) => v,
                        };
                        if want_info {
                            if cbi {
                                take = chance_less(vj, vb);
                            } else {
                                take = true;
                            }
                        } else {
                            if !cbi {
                                take = chance_less(vj, vb);
                            }
                        }
                    },
                }
            }
            if take {
                best = Option::Some(j);
            }
            proof {
                assert(opt_as_int(best) == better_guess(m, j as int, opt_as_int(prev_best),
                    want_info));
                assert(scan_guess(m, want_info, j as int, opt_as_int(prev_best)) == scan_guess(
                    m,
                    want_info,
                    j as int + 1,
                    opt_as_int(best),
                ));
            }
            j = j + 1;
        }
        best
    }

    /// Computes a single-shot recommendation for the board: nothing once
    /// the game has ended; otherwise the field is recomputed from
    /// scratch and the move chosen in strict priority order, certain
    /// moves from informed chances first, then from uninformed ones,
    /// then the lowest-chance guess.
    pub fn solve_step(&mut self, game: &Minesweeper) -> (r: SolverStep)
        requires
            game.inv(),
            old(self).inv(),
        ensures
            final(self).inv(),
            r == select_model(game@),
            game@.state == GameState::InProgress ==> final(self).matches_board(game@),
            game@.state != GameState::InProgress ==> final(self)@ == old(self)@,
    {
        if !matches!(game.state(), GameState::InProgress) {
            return SolverStep::NoStep;
        }
        self.calculate_field(game);
        let r1 = self.find_certain(game, true);
        if let Option::Some(step) = r1 {
            return step;
        }
        let r2 = self.find_certain(game, false);
        if let Option::Some(step) = r2 {
            return step;
        }
        let b1 = self.scan_guess_pass(game, true, Option::None);
        let b2 = self.scan_guess_pass(game, false, b1);
        match b2 {
            Option::Some(j) => {
                let x = j % self.width;
                let y = j / self.width;
                proof {
                    assert(pos_at(game@, j as int) == (x, y));
                }
                SolverStep::Open((x, y))
            },
            Option::None => SolverStep::NoStep,
        }
    }
}

/// A best-guess index as the model sees it.
pub open spec fn opt_as_int(o: Option<usize>) -> Option<int> {
    match o {
        Option::Some(v) => Option::Some(v as int),
        Option::None => Option::None,
    }
}

/// Fraction order, computed without overflow by widening.
fn chance_less(a: Chance, b: Chance) -> (r: bool)
    ensures
        r == chance_lt(a, b),
{
    proof {
        assert((a.num as int) * (b.den as int) <= (u64::MAX as int) * (u64::MAX as int)
            && (b.num as int) * (a.den as int) <= (u64::MAX as int) * (u64::MAX as int)
            && 0 <= (a.num as int) * (b.den as int) && 0 <= (b.num as int) * (a.den as int))
            by (nonlinear_arith)
            requires
                0 <= a.num <= u64::MAX,
                0 <= a.den <= u64::MAX,
                0 <= b.num <= u64::MAX,
                0 <= b.den <= u64::MAX,
        ;
    }
    (a.num as u128) * (b.den as u128) < (b.num as u128) * (a.den as u128)
}

/// The scan's denominator bound never exceeds its value at eight
/// contributions, the most a cell can have.
proof fn lemma_scan_den_bound_at_most(k: int)
    requires
        0 <= k <= 8,
    ensures
        scan_den_bound(k) <= 16777216,
        1 <= scan_den_bound(k),
{
    assert(scan_den_bound(0) == 1);
    assert(scan_den_bound(1) == 8);
    assert(scan_den_bound(2) == 64);
    assert(scan_den_bound(3) == 512);
    assert(scan_den_bound(4) == 4096);
    assert(scan_den_bound(5) == 32768);
    assert(scan_den_bound(6) == 262144);
    assert(scan_den_bound(7) == 2097152);
    assert(scan_den_bound(8) == 16777216);
}

} // verus!

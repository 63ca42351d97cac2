//! The solving engine: a grid of candidate sets with per-unit caches of the
//! values placed so far, the propagation pass and the solving loop.
use vstd::prelude::*;
use crate::candidates::{all_tokens, CandidateSet};
use crate::grid::{
    clash_at, complete, each_value_once, lemma_solved_is_sound, count_solved, has_clash, has_empty_cell, lemma_count_solved,
    lemma_fixed_point_stable, lemma_step_narrows, lemma_unit_values_grow, lemma_values_below_next,
    lemma_values_below_zero, outcome_of, progressed, pruned, settle, solved, step, unit_index,
    unit_values, values_below, Outcome, Unit,
};
use crate::token::{token_at, Token};

verus! {

/// The digit given for the cell at flat position `i` of a 9x9 matrix.
pub open spec fn digit_at(matrix: [[u8; 9]; 9], i: int) -> u8 {
    matrix@[i / 9]@[i % 9]
}

/// The candidates of a cell given as `d`: all nine values for a blank (0),
/// else the value `d` alone.
pub open spec fn initial_cell(d: u8) -> Set<Token> {
    if d == 0 {
        all_tokens()
    } else {
        set![token_at((d - 1) as u16)]
    }
}

/// The grid that a matrix of digits describes.
pub open spec fn initial_grid(matrix: [[u8; 9]; 9]) -> Seq<Set<Token>> {
    Seq::new(81, |i: int| initial_cell(digit_at(matrix, i)))
}

/// A matrix digit outside 0 to 9, at column `x` and row `y`.
#[derive(Clone, Copy, PartialEq, Eq, Debug, Structural)]
pub struct InvalidInputError {
    pub x: usize,
    pub y: usize,
    pub digit: u8,
}

/// A puzzle being solved.
pub struct Game {
    puzzle: Vec<CandidateSet>,
    rows: Vec<CandidateSet>,
    columns: Vec<CandidateSet>,
    blocks: Vec<CandidateSet>,
}

impl View for Game {
    type V = Seq<Set<Token>>;

    /// The candidate sets of the 81 cells, row by row.
    closed spec fn view(&self) -> Seq<Set<Token>> {
        self.puzzle@.map_values(|c: CandidateSet| c@)
    }
}

proof fn lemma_cell_indices(x: int, y: int)
    requires
        0 <= x < 9,
        0 <= y < 9,
    ensures
        0 <= 9 * y + x < 81,
        unit_index(Unit::Row, 9 * y + x) == y,
        unit_index(Unit::Column, 9 * y + x) == x,
        unit_index(Unit::Block, 9 * y + x) == y / 3 * 3 + x / 3,
        0 <= y / 3 * 3 + x / 3 < 9,
{
}

impl Game {
    /// The cache that holds the placed values of each unit of kind `u`.
    spec fn cache(&self, u: Unit) -> Seq<CandidateSet> {
        match u {
            Unit::Row => self.rows@,
            Unit::Column => self.columns@,
            Unit::Block => self.blocks@,
        }
    }

    spec fn shaped(&self) -> bool {
        &&& self.puzzle@.len() == 81
        &&& self.rows@.len() == 9
        &&& self.columns@.len() == 9
        &&& self.blocks@.len() == 9
    }

    /// 81 cells, and each cache holds exactly the values placed in its unit.
    pub closed spec fn wf(&self) -> bool {
        &&& self.shaped()
        &&& forall|u: Unit, k: int| 0 <= k < 9 ==> #[trigger] self.cache(u)[k]@ == unit_values(self@, u, k)
    }

    /// A well-formed game has 81 cells.
    pub proof fn lemma_wf_len(&self)
        requires
            self.wf(),
        ensures
            self@.len() == 81,
    {
    }

    /// Folds the candidates of cell (x, y) into the caches of its row, column and block.
    fn update_at(&mut self, x: usize, y: usize)
        requires
            old(self).shaped(),
            x < 9,
            y < 9,
        ensures
            final(self).shaped(),
            final(self).puzzle == old(self).puzzle,
            forall|u: Unit, k: int|
                0 <= k < 9 ==> #[trigger] final(self).cache(u)[k]@ == if k == unit_index(
                    u,
                    9 * y + x,
                ) {
                    old(self).cache(u)[k]@.union(old(self)@[9 * y + x])
                } else {
                    old(self).cache(u)[k]@
                },
    {
        proof {
            lemma_cell_indices(x as int, y as int);
        }
        let cell = self.puzzle[9 * y + x];
        let b = y / 3 * 3 + x / 3;
        let r = self.rows[y].union(&cell);
        self.rows.set(y, r);
        let c = self.columns[x].union(&cell);
        self.columns.set(x, c);
        let k = self.blocks[b].union(&cell);
        self.blocks.set(b, k);
    }

    /// Folds every solved cell into the caches. Where the caches held only
    /// placed values before, they hold exactly the placed values after.
    fn fold_solved(&mut self)
        requires
            old(self).shaped(),
            forall|u: Unit, k: int|
                0 <= k < 9 ==> #[trigger] old(self).cache(u)[k]@.subset_of(unit_values(old(self)@, u, k)),
        ensures
            final(self).wf(),
            final(self)@ == old(self)@,
    {
        let ghost g = self@;
        let ghost start = *self;
        let mut i: usize = 0;
        proof {
            assert forall|u: Unit, k: int| 0 <= k < 9 implies #[trigger] self.cache(u)[k]@ == start.cache(u)[k]@.union(
                values_below(g, u, k, 0),
            ) by {
                lemma_values_below_zero(g, u, k);
                assert(self.cache(u)[k]@ =~= start.cache(u)[k]@.union(values_below(g, u, k, 0)));
            }
        }
        while i < 81
            invariant
                0 <= i <= 81,
                self.shaped(),
                self.puzzle == start.puzzle,
                self@ == g,
                g.len() == 81,
                forall|u: Unit, k: int|
                    0 <= k < 9 ==> #[trigger] self.cache(u)[k]@ == start.cache(u)[k]@.union(
                        values_below(g, u, k, i as int),
                    ),
            decreases 81 - i,
        {
            let ghost before = *self;
            let solved_here = self.puzzle[i].len() == 1;
            if solved_here {
                self.update_at(i % 9, i / 9);
            }
            proof {
                assert(9 * (i / 9) + i % 9 == i);
                assert forall|u: Unit, k: int| 0 <= k < 9 implies #[trigger] self.cache(u)[k]@ == start.cache(u)[k]@.union(
                    values_below(g, u, k, i + 1),
                ) by {
                    lemma_values_below_next(g, u, k, i as int);
                    assert(self.cache(u)[k]@ =~= start.cache(u)[k]@.union(values_below(g, u, k, i + 1)));
                }
            }
            i = i + 1;
        }
        proof {
            assert forall|u: Unit, k: int| 0 <= k < 9 implies #[trigger] self.cache(u)[k]@ == unit_values(self@, u, k) by {
                assert(start.cache(u)[k]@.subset_of(unit_values(g, u, k)));
                assert(self.cache(u)[k]@ =~= unit_values(self@, u, k));
            }
        }
    }

    /// A game from a 9x9 matrix of digits, 0 for a blank. Each blank may take
    /// any value; each given cell is solved to its digit. A digit above 9 is
    /// refused, and the error names the first one in row order.
    pub fn new(matrix: [[u8; 9]; 9]) -> (r: Result<Game, InvalidInputError>)
        ensures
            r is Err <==> exists|i: int| 0 <= i < 81 && #[trigger] digit_at(matrix, i) > 9,
            r matches Ok(game) ==> game.wf() && game@ == initial_grid(matrix),
            r matches Err(e) ==> {
                &&& e.x < 9
                &&& e.y < 9
                &&& e.digit == matrix@[e.y as int]@[e.x as int]
                &&& e.digit > 9
                &&& forall|i: int| 0 <= i < 9 * e.y + e.x ==> #[trigger] digit_at(matrix, i) <= 9
            },
    {
        let mut puzzle: Vec<CandidateSet> = Vec::new();
        let mut y: usize = 0;
        while y < 9
            invariant
                0 <= y <= 9,
                puzzle@.len() == 9 * y,
                forall|i: int| 0 <= i < 9 * y ==> #[trigger] digit_at(matrix, i) <= 9,
                forall|i: int| 0 <= i < 9 * y ==> #[trigger] puzzle@[i]@ == initial_cell(digit_at(matrix, i)),
            decreases 9 - y,
        {
            let row: [u8; 9] = matrix[y];
            let mut x: usize = 0;
            while x < 9
                invariant
                    0 <= y < 9,
                    0 <= x <= 9,
                    row == matrix@[y as int],
                    puzzle@.len() == 9 * y + x,
                    forall|i: int| 0 <= i < 9 * y + x ==> #[trigger] digit_at(matrix, i) <= 9,
                    forall|i: int| 0 <= i < 9 * y + x ==> #[trigger] puzzle@[i]@ == initial_cell(digit_at(matrix, i)),
                decreases 9 - x,
            {
                let d: u8 = row[x];
                proof {
                    lemma_cell_indices(x as int, y as int);
                    assert(((9 * y + x) as int) / 9 == y && ((9 * y + x) as int) % 9 == x);
                }
                if d > 9 {
                    assert(digit_at(matrix, 9 * y + x) > 9);
                    return Err(InvalidInputError { x, y, digit: d });
                }
                let cell = if d == 0 {
                    CandidateSet::all()
                } else {
                    CandidateSet::only(Token::from_u8(d))
                };
                puzzle.push(cell);
                x = x + 1;
            }
            y = y + 1;
        }
        let mut game = Game {
            puzzle,
            rows: vec![CandidateSet::empty(); 9],
            columns: vec![CandidateSet::empty(); 9],
            blocks: vec![CandidateSet::empty(); 9],
        };
        game.fold_solved();
        proof {
            assert(game@ =~= initial_grid(matrix));
        }
        Ok(game)
    }

    /// Narrows cell (x, y), unless it is solved, by the cached values of its
    /// row, column and block. Returns whether this solved the cell.
    fn refine_at(&mut self, x: usize, y: usize) -> (r: bool)
        requires
            old(self).shaped(),
            x < 9,
            y < 9,
        ensures
            final(self).shaped(),
            final(self).rows == old(self).rows,
            final(self).columns == old(self).columns,
            final(self).blocks == old(self).blocks,
            final(self)@ == old(self)@.update(
                9 * y + x,
                if solved(old(self)@[9 * y + x]) {
                    old(self)@[9 * y + x]
                } else {
                    old(self)@[9 * y + x].difference(old(self).rows@[y as int]@).difference(
                        old(self).columns@[x as int]@,
                    ).difference(old(self).blocks@[y / 3 * 3 + x / 3]@)
                },
            ),
            r == (!solved(old(self)@[9 * y + x]) && solved(final(self)@[9 * y + x])),
    {
        proof {
            lemma_cell_indices(x as int, y as int);
        }
        let i = 9 * y + x;
        let cell = self.puzzle[i];
        if cell.len() == 1 {
            proof {
                assert(self@ =~= old(self)@.update(i as int, old(self)@[i as int]));
            }
            return false;
        }
        let narrowed = cell.difference(&self.rows[y]).difference(&self.columns[x]).difference(
            &self.blocks[y / 3 * 3 + x / 3],
        );
        self.puzzle.set(i, narrowed);
        proof {
            assert(self@ =~= old(self)@.update(i as int, narrowed@));
        }
        narrowed.len() == 1
    }

    /// One propagation pass: every unsolved cell loses the values placed in
    /// its row, column and block, then the caches take in the cells solved.
    /// Returns whether the pass solved a cell that was not solved before.
    /// No cell gains a candidate.
    pub fn play(&mut self) -> (r: bool)
        requires
            old(self).wf(),
        ensures
            final(self).wf(),
            final(self)@ == step(old(self)@),
            r == progressed(old(self)@, final(self)@),
            forall|i: int| 0 <= i < 81 ==> #[trigger] final(self)@[i].subset_of(old(self)@[i]),
            forall|i: int| 0 <= i < 81 ==> #[trigger] final(self)@[i].len() <= old(self)@[i].len(),
    {
        let ghost g = self@;
        let ghost start = *self;
        let mut any: bool = false;
        let mut i: usize = 0;
        while i < 81
            invariant
                0 <= i <= 81,
                g == start@,
                g.len() == 81,
                start.wf(),
                self.shaped(),
                self.rows == start.rows,
                self.columns == start.columns,
                self.blocks == start.blocks,
                forall|j: int| 0 <= j < i ==> #[trigger] self@[j] == pruned(g, j),
                forall|j: int| i <= j < 81 ==> #[trigger] self@[j] == g[j],
                any == exists|j: int| 0 <= j < i && !solved(g[j]) && #[trigger] solved(pruned(g, j)),
            decreases 81 - i,
        {
            proof {
                assert(9 * (i / 9) + i % 9 == i);
                lemma_cell_indices((i % 9) as int, (i / 9) as int);
                let (y, x) = ((i / 9) as int, (i % 9) as int);
                assert(start.cache(Unit::Row)[y]@ == unit_values(g, Unit::Row, y));
                assert(start.cache(Unit::Column)[x]@ == unit_values(g, Unit::Column, x));
                assert(start.cache(Unit::Block)[y / 3 * 3 + x / 3]@ == unit_values(
                    g,
                    Unit::Block,
                    y / 3 * 3 + x / 3,
                ));
            }
            let newly = self.refine_at(i % 9, i / 9);
            any = any || newly;
            proof {
                assert(self@[i as int] == pruned(g, i as int));
                if any {
                    let j = if newly {
                        i as int
                    } else {
                        choose|j: int| 0 <= j < i && !solved(g[j]) && #[trigger] solved(pruned(g, j))
                    };
                    assert(0 <= j < i + 1 && !solved(g[j]) && solved(pruned(g, j)));
                }
            }
            i = i + 1;
        }
        proof {
            assert(self@ =~= step(g));
            lemma_step_narrows(g);
            assert forall|u: Unit, k: int| 0 <= k < 9 implies #[trigger] self.cache(u)[k]@.subset_of(
                unit_values(self@, u, k),
            ) by {
                assert(start.cache(u)[k]@ == unit_values(g, u, k));
                lemma_unit_values_grow(g, self@, u, k);
            }
            if any {
                let j = choose|j: int| 0 <= j < 81 && !solved(g[j]) && #[trigger] solved(pruned(g, j));
                assert(solved(self@[j]));
            }
        }
        self.fold_solved();
        any
    }

    /// The values placed in row `y`: those of its solved cells.
    pub fn row_union(&self, y: usize) -> (r: CandidateSet)
        requires
            self.wf(),
            y < 9,
        ensures
            r@ == unit_values(self@, Unit::Row, y as int),
    {
        proof {
            assert(self.cache(Unit::Row)[y as int]@ == unit_values(self@, Unit::Row, y as int));
        }
        self.rows[y]
    }

    /// The values placed in column `x`: those of its solved cells.
    pub fn column_union(&self, x: usize) -> (r: CandidateSet)
        requires
            self.wf(),
            x < 9,
        ensures
            r@ == unit_values(self@, Unit::Column, x as int),
    {
        proof {
            assert(self.cache(Unit::Column)[x as int]@ == unit_values(self@, Unit::Column, x as int));
        }
        self.columns[x]
    }

    /// The values placed in the block that holds cell (x, y): those of its solved cells.
    pub fn block_union(&self, x: usize, y: usize) -> (r: CandidateSet)
        requires
            self.wf(),
            x < 9,
            y < 9,
        ensures
            r@ == unit_values(self@, Unit::Block, unit_index(Unit::Block, 9 * y + x)),
    {
        let b = y / 3 * 3 + x / 3;
        proof {
            lemma_cell_indices(x as int, y as int);
            assert(self.cache(Unit::Block)[b as int]@ == unit_values(self@, Unit::Block, b as int));
        }
        self.blocks[b]
    }

    /// The candidates of cell (x, y).
    pub fn cell(&self, x: usize, y: usize) -> (r: CandidateSet)
        requires
            self.wf(),
            x < 9,
            y < 9,
        ensures
            r@ == self@[9 * y + x],
    {
        self.puzzle[9 * y + x]
    }

    /// The candidates of all cells, row by row.
    pub fn cells(&self) -> (r: Vec<CandidateSet>)
        requires
            self.wf(),
        ensures
            r@.len() == 81,
            forall|i: int| 0 <= i < 81 ==> #[trigger] r@[i]@ == self@[i],
    {
        let mut r: Vec<CandidateSet> = Vec::new();
        let mut i: usize = 0;
        while i < 81
            invariant
                0 <= i <= 81,
                self.wf(),
                r@.len() == i,
                forall|j: int| 0 <= j < i ==> #[trigger] r@[j]@ == self@[j],
            decreases 81 - i,
        {
            r.push(self.puzzle[i]);
            i = i + 1;
        }
        r
    }

    /// Whether every cell is solved.
    pub fn is_complete(&self) -> (r: bool)
        requires
            self.wf(),
        ensures
            r == complete(self@),
    {
        let mut i: usize = 0;
        while i < 81
            invariant
                0 <= i <= 81,
                self.wf(),
                forall|j: int| 0 <= j < i ==> #[trigger] solved(self@[j]),
            decreases 81 - i,
        {
            assert(self@[i as int] == self.puzzle@[i as int]@);
            if self.puzzle[i].len() != 1 {
                assert(!solved(self@[i as int]));
                return false;
            }
            i = i + 1;
        }
        true
    }

    /// Whether some cell has no candidate left.
    fn has_empty_cell(&self) -> (r: bool)
        requires
            self.wf(),
        ensures
            r == has_empty_cell(self@),
    {
        let mut i: usize = 0;
        while i < 81
            invariant
                0 <= i <= 81,
                self.wf(),
                forall|j: int| 0 <= j < i ==> #[trigger] self@[j].len() != 0,
            decreases 81 - i,
        {
            assert(self@[i as int] == self.puzzle@[i as int]@);
            if self.puzzle[i].is_empty() {
                assert(self@[i as int].len() == 0);
                return true;
            }
            i = i + 1;
        }
        false
    }

    /// Whether two solved cells of one unit hold the same value.
    fn has_conflict(&self) -> (r: bool)
        requires
            self.wf(),
        ensures
            r == has_clash(self@),
    {
        let ghost g = self@;
        let mut copy: Vec<CandidateSet> = Vec::new();
        let mut i: usize = 0;
        while i < 81
            invariant
                0 <= i <= 81,
                self.wf(),
                copy@.len() == i,
                forall|j: int| 0 <= j < i ==> #[trigger] copy@[j] == self.puzzle@[j],
            decreases 81 - i,
        {
            copy.push(self.puzzle[i]);
            i = i + 1;
        }
        let mut seen = Game {
            puzzle: copy,
            rows: vec![CandidateSet::empty(); 9],
            columns: vec![CandidateSet::empty(); 9],
            blocks: vec![CandidateSet::empty(); 9],
        };
        proof {
            assert(seen.puzzle@ =~= self.puzzle@);
            assert forall|u: Unit, k: int| 0 <= k < 9 implies #[trigger] seen.cache(u)[k]@ == values_below(g, u, k, 0) by {
                lemma_values_below_zero(g, u, k);
            }
        }
        i = 0;
        while i < 81
            invariant
                0 <= i <= 81,
                g.len() == 81,
                g == self@,
                seen.shaped(),
                seen@ == g,
                forall|u: Unit, k: int| 0 <= k < 9 ==> #[trigger] seen.cache(u)[k]@ == values_below(g, u, k, i as int),
                forall|u: Unit, a: int, b: int, t: Token| a < i ==> !#[trigger] clash_at(g, u, a, b, t),
            decreases 81 - i,
        {
            let (x, y) = (i % 9, i / 9);
            let ghost b = y / 3 * 3 + x / 3;
            proof {
                assert(9 * y + x == i);
                lemma_cell_indices(x as int, y as int);
            }
            let cell = seen.puzzle[i];
            if cell.len() == 1 {
                let r = cell.intersection(&seen.rows[y]);
                let c = cell.intersection(&seen.columns[x]);
                let k = cell.intersection(&seen.blocks[y / 3 * 3 + x / 3]);
                proof {
                    assert(seen.cache(Unit::Row)[y as int]@ == values_below(g, Unit::Row, y as int, i as int));
                    assert(seen.cache(Unit::Column)[x as int]@ == values_below(g, Unit::Column, x as int, i as int));
                    assert(seen.cache(Unit::Block)[b as int]@ == values_below(g, Unit::Block, b as int, i as int));
                }
                if !r.is_empty() || !c.is_empty() || !k.is_empty() {
                    proof {
                        let (u, s) = if r@ != Set::<Token>::empty() {
                            (Unit::Row, r@)
                        } else if c@ != Set::<Token>::empty() {
                            (Unit::Column, c@)
                        } else {
                            (Unit::Block, k@)
                        };
                        assert(!(s =~= Set::<Token>::empty()));
                        let t = choose|t: Token| s.contains(t);
                        let j = choose|j: int|
                            0 <= j < i && unit_index(u, j) == unit_index(u, i as int) && solved(g[j])
                                && #[trigger] g[j].contains(t);
                        assert(clash_at(g, u, i as int, j, t));
                    }
                    return true;
                }
                proof {
                    assert forall|u: Unit, a: int, j: int, t: Token| a < i + 1 implies !#[trigger] clash_at(
                        g,
                        u,
                        a,
                        j,
                        t,
                    ) by {
                        if a == i && clash_at(g, u, a, j, t) {
                            let s = if u == Unit::Row {
                                r@
                            } else if u == Unit::Column {
                                c@
                            } else {
                                k@
                            };
                            assert(s.contains(t));
                        }
                    }
                }
                seen.update_at(x, y);
            } else {
                proof {
                    assert forall|u: Unit, a: int, j: int, t: Token| a < i + 1 implies !#[trigger] clash_at(
                        g,
                        u,
                        a,
                        j,
                        t,
                    ) by {}
                }
            }
            proof {
                assert forall|u: Unit, k: int| 0 <= k < 9 implies #[trigger] seen.cache(u)[k]@ == values_below(
                    g,
                    u,
                    k,
                    i + 1,
                ) by {
                    lemma_values_below_next(g, u, k, i as int);
                }
            }
            i = i + 1;
        }
        false
    }

    /// What the grid stands for: a contradiction where a cell has no
    /// candidate or a unit holds a value twice, else solved where every cell
    /// is solved, else stalled.
    pub fn outcome(&self) -> (r: Outcome)
        requires
            self.wf(),
        ensures
            r == outcome_of(self@),
    {
        if self.has_empty_cell() || self.has_conflict() {
            Outcome::Contradiction
        } else if self.is_complete() {
            Outcome::Solved
        } else {
            Outcome::Stalled
        }
    }
}

/// Runs propagation passes until one solves no new cell, then reports the
/// outcome. The grid left is the fixed point of the passes: one more pass
/// would not change it.
pub fn solve(game: &mut Game) -> (r: Outcome)
    requires
        old(game).wf(),
    ensures
        final(game).wf(),
        final(game)@ == settle(old(game)@),
        step(final(game)@) == final(game)@,
        r == outcome_of(final(game)@),
        r == Outcome::Solved ==> each_value_once(final(game)@),
{
    let ghost g0 = game@;
    loop
        invariant
            game.wf(),
            settle(game@) == settle(g0),
        ensures
            game.wf(),
            game@ == settle(g0),
            step(game@) == game@,
        decreases 81 - count_solved(game@),
    {
        let ghost before = game@;
        proof {
            game.lemma_wf_len();
            lemma_step_narrows(before);
        }
        let progress = game.play();
        proof {
            let after = game@;
            lemma_count_solved(before, after);
            if !progress {
                assert forall|i: int| 0 <= i < after.len() && solved(after[i]) implies #[trigger] solved(before[i]) by {
                    if !solved(before[i]) {
                        assert(progressed(before, after));
                    }
                }
                lemma_count_solved(after, before);
                lemma_fixed_point_stable(before);
                lemma_count_solved(after, step(after));
            }
        }
        if !progress {
            break;
        }
    }
    let r = game.outcome();
    proof {
        if r == Outcome::Solved {
            lemma_solved_is_sound(game@);
        }
    }
    r
}

} // verus!

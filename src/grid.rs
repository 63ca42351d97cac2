//! The mathematical model of a grid: 81 candidate sets in row-major order,
//! and what one propagation pass and the whole solving loop do to it.
use vstd::prelude::*;
use crate::candidates::{all_tokens, lemma_all_tokens, lemma_token_set_finite};
use vstd::relations::injective_on;
use vstd::set_lib::{lemma_int_range, lemma_len_subset, lemma_map_size, lemma_subset_equality, set_int_range};
use crate::token::Token;

verus! {

/// The three kinds of unit: nine cells that must hold each value once.
#[derive(Clone, Copy, PartialEq, Eq, Debug, Structural)]
pub enum Unit {
    Row,
    Column,
    Block,
}

/// A candidate set with exactly one member: the cell is solved.
pub open spec fn solved(s: Set<Token>) -> bool {
    s.len() == 1
}

/// Which unit of the given kind the cell at flat position `i` (`9 * y + x`) lies in.
pub open spec fn unit_index(u: Unit, i: int) -> int {
    match u {
        Unit::Row => i / 9,
        Unit::Column => i % 9,
        Unit::Block => (i / 9) / 3 * 3 + (i % 9) / 3,
    }
}

/// The values of the solved cells among the first `n` cells that lie in unit `k` of kind `u`.
pub open spec fn values_below(g: Seq<Set<Token>>, u: Unit, k: int, n: int) -> Set<Token> {
    Set::new(
        |t: Token|
            exists|j: int|
                0 <= j < n && unit_index(u, j) == k && solved(g[j]) && #[trigger] g[j].contains(t),
    )
}

/// The values already placed in unit `k` of kind `u`: those of its solved cells.
pub open spec fn unit_values(g: Seq<Set<Token>>, u: Unit, k: int) -> Set<Token> {
    values_below(g, u, k, 81)
}

/// A cell after one pass: unsolved cells lose the values placed in their row,
/// column and block; solved cells stay as they are.
pub open spec fn pruned(g: Seq<Set<Token>>, i: int) -> Set<Token> {
    if solved(g[i]) {
        g[i]
    } else {
        g[i].difference(unit_values(g, Unit::Row, unit_index(Unit::Row, i))).difference(
            unit_values(g, Unit::Column, unit_index(Unit::Column, i)),
        ).difference(unit_values(g, Unit::Block, unit_index(Unit::Block, i)))
    }
}

/// The grid after one propagation pass.
pub open spec fn step(g: Seq<Set<Token>>) -> Seq<Set<Token>> {
    Seq::new(81, |i: int| pruned(g, i))
}

/// Whether a pass from `g` to `h` solved some cell that was not solved before.
pub open spec fn progressed(g: Seq<Set<Token>>, h: Seq<Set<Token>>) -> bool {
    exists|i: int| 0 <= i < 81 && !solved(g[i]) && #[trigger] solved(h[i])
}

/// The number of solved cells.
pub open spec fn count_solved(g: Seq<Set<Token>>) -> nat
    decreases g.len(),
{
    if g.len() == 0 {
        0
    } else {
        count_solved(g.drop_last()) + if solved(g.last()) {
            1nat
        } else {
            0nat
        }
    }
}

/// The grid that the solving loop ends with: passes repeat while each solves a new cell.
pub open spec fn settle(g: Seq<Set<Token>>) -> Seq<Set<Token>>
    decreases 81 - count_solved(g),
{
    let h = step(g);
    if count_solved(g) < count_solved(h) <= 81 {
        settle(h)
    } else {
        h
    }
}

/// Every cell is solved.
pub open spec fn complete(g: Seq<Set<Token>>) -> bool {
    forall|i: int| 0 <= i < 81 ==> #[trigger] solved(g[i])
}

/// Some cell has no candidate left.
pub open spec fn has_empty_cell(g: Seq<Set<Token>>) -> bool {
    exists|i: int| 0 <= i < 81 && #[trigger] g[i].len() == 0
}

/// Cells `j < i` lie in the same unit of kind `u`, are both solved, and both hold `t`.
pub open spec fn clash_at(g: Seq<Set<Token>>, u: Unit, i: int, j: int, t: Token) -> bool {
    0 <= j < i < 81 && unit_index(u, i) == unit_index(u, j) && solved(g[i]) && solved(g[j])
        && g[i].contains(t) && g[j].contains(t)
}

/// Two different solved cells of one unit hold the same value.
pub open spec fn has_clash(g: Seq<Set<Token>>) -> bool {
    exists|u: Unit, i: int, j: int, t: Token| #[trigger] clash_at(g, u, i, j, t)
}

/// Every unit of every kind holds all nine values.
pub open spec fn units_full(g: Seq<Set<Token>>) -> bool {
    forall|u: Unit, k: int| 0 <= k < 9 ==> #[trigger] unit_values(g, u, k) == all_tokens()
}

/// Unit `k` of kind `u` holds `t` in exactly one cell, and that cell is solved.
pub open spec fn placed_once(g: Seq<Set<Token>>, u: Unit, k: int, t: Token) -> bool {
    &&& exists|i: int|
        0 <= i < 81 && unit_index(u, i) == k && solved(g[i]) && #[trigger] g[i].contains(t)
    &&& forall|i: int, j: int|
        0 <= i < 81 && 0 <= j < 81 && unit_index(u, i) == k && unit_index(u, j) == k && solved(g[i])
            && solved(g[j]) && #[trigger] g[i].contains(t) && #[trigger] g[j].contains(t) ==> i == j
}

/// Each unit holds each value exactly once.
pub open spec fn each_value_once(g: Seq<Set<Token>>) -> bool {
    forall|u: Unit, k: int, t: Token| 0 <= k < 9 ==> #[trigger] placed_once(g, u, k, t)
}

/// How the solving loop ends.
#[derive(Clone, Copy, PartialEq, Eq, Debug, Structural)]
pub enum Outcome {
    /// Every cell is solved, and no unit holds a value twice.
    Solved,
    /// No pass solves another cell, and the grid shows no contradiction.
    Stalled,
    /// A cell has no candidate left, or a unit holds a value twice.
    Contradiction,
}

/// The outcome that a grid at its fixed point stands for.
pub open spec fn outcome_of(g: Seq<Set<Token>>) -> Outcome {
    if has_empty_cell(g) || has_clash(g) {
        Outcome::Contradiction
    } else if complete(g) {
        Outcome::Solved
    } else {
        Outcome::Stalled
    }
}

/// Adding cell `i` to the cells looked at adds its value when it is solved and in the unit.
pub proof fn lemma_values_below_next(g: Seq<Set<Token>>, u: Unit, k: int, i: int)
    requires
        0 <= i,
    ensures
        values_below(g, u, k, i + 1) == if unit_index(u, i) == k && solved(g[i]) {
            values_below(g, u, k, i).union(g[i])
        } else {
            values_below(g, u, k, i)
        },
{
    if unit_index(u, i) == k && solved(g[i]) {
        assert(values_below(g, u, k, i + 1) =~= values_below(g, u, k, i).union(g[i]));
    } else {
        assert(values_below(g, u, k, i + 1) =~= values_below(g, u, k, i));
    }
}

/// No cell looked at: no value.
pub proof fn lemma_values_below_zero(g: Seq<Set<Token>>, u: Unit, k: int)
    ensures
        values_below(g, u, k, 0) == Set::<Token>::empty(),
{
    assert(values_below(g, u, k, 0) =~= Set::<Token>::empty());
}

/// A pass only narrows: each cell keeps a subset of its candidates, so its size
/// never grows, and solved cells stay as they are.
pub proof fn lemma_step_narrows(g: Seq<Set<Token>>)
    ensures
        step(g).len() == 81,
        forall|i: int| 0 <= i < 81 ==> #[trigger] step(g)[i].subset_of(g[i]),
        forall|i: int| 0 <= i < 81 ==> #[trigger] step(g)[i].len() <= g[i].len(),
        forall|i: int| 0 <= i < 81 && solved(g[i]) ==> #[trigger] step(g)[i] == g[i],
{
    assert forall|i: int| 0 <= i < 81 implies #[trigger] step(g)[i].len() <= g[i].len() by {
        lemma_token_set_finite(g[i]);
        vstd::set_lib::lemma_len_subset(step(g)[i], g[i]);
    }
}

/// Where every solved cell of `g` is unchanged in `h`, every unit of `h` holds
/// at least the values of that unit of `g`.
pub proof fn lemma_unit_values_grow(g: Seq<Set<Token>>, h: Seq<Set<Token>>, u: Unit, k: int)
    requires
        forall|i: int| 0 <= i < 81 && solved(g[i]) ==> #[trigger] h[i] == g[i],
    ensures
        unit_values(g, u, k).subset_of(unit_values(h, u, k)),
{
    assert forall|t: Token| #[trigger] unit_values(g, u, k).contains(t) implies unit_values(h, u, k).contains(t) by {
        let j = choose|j: int|
            0 <= j < 81 && unit_index(u, j) == k && solved(g[j]) && #[trigger] g[j].contains(t);
        assert(h[j].contains(t));
    }
}

/// Where solved cells stay solved, the count of solved cells does not fall,
/// and it rises where a cell becomes solved; it never exceeds the number of cells.
pub proof fn lemma_count_solved(g: Seq<Set<Token>>, h: Seq<Set<Token>>)
    requires
        g.len() == h.len(),
        forall|i: int| 0 <= i < g.len() && solved(g[i]) ==> #[trigger] solved(h[i]),
    ensures
        count_solved(g) <= count_solved(h) <= h.len(),
        (exists|i: int| 0 <= i < g.len() && !solved(g[i]) && #[trigger] solved(h[i])) ==> count_solved(g)
            < count_solved(h),
    decreases g.len(),
{
    if g.len() > 0 {
        let (g0, h0) = (g.drop_last(), h.drop_last());
        assert forall|i: int| 0 <= i < g0.len() && solved(g0[i]) implies #[trigger] solved(h0[i]) by {
            assert(solved(g[i]));
        }
        lemma_count_solved(g0, h0);
        if exists|i: int| 0 <= i < g.len() && !solved(g[i]) && #[trigger] solved(h[i]) {
            let i = choose|i: int| 0 <= i < g.len() && !solved(g[i]) && #[trigger] solved(h[i]);
            if i < g0.len() {
                assert(!solved(g0[i]) && solved(h0[i]));
            }
        }
    }
}

/// A pass that solves no new cell leaves a grid that the next pass does not change.
pub proof fn lemma_fixed_point_stable(g: Seq<Set<Token>>)
    requires
        g.len() == 81,
        !progressed(g, step(g)),
    ensures
        step(step(g)) == step(g),
{
    let h = step(g);
    lemma_step_narrows(g);
    assert forall|i: int| 0 <= i < 81 implies #[trigger] solved(h[i]) == solved(g[i]) by {
        if solved(h[i]) && !solved(g[i]) {
            assert(progressed(g, h));
        }
    }
    assert forall|u: Unit, k: int| #[trigger] unit_values(h, u, k) == unit_values(g, u, k) by {
        lemma_unit_values_grow(g, h, u, k);
        lemma_unit_values_grow(h, g, u, k);
        assert(unit_values(h, u, k) =~= unit_values(g, u, k));
    }
    assert forall|i: int| 0 <= i < 81 implies #[trigger] step(h)[i] == h[i] by {
        if !solved(h[i]) {
            assert(pruned(h, i) =~= h[i]);
        }
    }
    assert(step(h) =~= h);
}

/// When the outcome is `Solved`, every row, column and block holds each of the
/// nine values exactly once.
pub proof fn lemma_solved_is_sound(g: Seq<Set<Token>>)
    requires
        outcome_of(g) == Outcome::Solved,
    ensures
        each_value_once(g),
{
    lemma_complete_units_full(g);
    assert forall|u: Unit, k: int, t: Token| 0 <= k < 9 implies #[trigger] placed_once(g, u, k, t) by {
        assert(unit_values(g, u, k).contains(t));
        assert forall|i: int, j: int|
            0 <= i < 81 && 0 <= j < 81 && unit_index(u, i) == k && unit_index(u, j) == k && solved(g[i])
                && solved(g[j]) && #[trigger] g[i].contains(t) && #[trigger] g[j].contains(t) implies i == j by {
            if j < i {
                assert(clash_at(g, u, i, j, t));
            } else if i < j {
                assert(clash_at(g, u, j, i, t));
            }
        }
    }
}

/// The solving loop is a function of the grid it starts from: equal grids
/// settle to equal grids with equal outcomes.
pub proof fn lemma_settle_deterministic(a: Seq<Set<Token>>, b: Seq<Set<Token>>)
    requires
        a == b,
    ensures
        settle(a) == settle(b),
        outcome_of(settle(a)) == outcome_of(settle(b)),
{
}

/// The cell at place `m` (0 to 8) of unit `k` of kind `u`.
pub open spec fn unit_cell(u: Unit, k: int, m: int) -> int {
    match u {
        Unit::Row => 9 * k + m,
        Unit::Column => 9 * m + k,
        Unit::Block => 9 * (k / 3 * 3 + m / 3) + k % 3 * 3 + m % 3,
    }
}

/// The nine places of a unit are nine different cells of that unit.
pub proof fn lemma_unit_cell(u: Unit, k: int, m: int, n: int)
    requires
        0 <= k < 9,
        0 <= m < 9,
        0 <= n < 9,
    ensures
        0 <= unit_cell(u, k, m) < 81,
        unit_index(u, unit_cell(u, k, m)) == k,
        m != n ==> unit_cell(u, k, m) != unit_cell(u, k, n),
{
}

/// A value that a solved cell holds: its only member.
spec fn value_of(s: Set<Token>) -> Token {
    s.choose()
}

/// Pigeonhole: where every cell is solved and no unit holds a value twice,
/// the nine cells of each unit hold all nine values.
pub proof fn lemma_complete_units_full(g: Seq<Set<Token>>)
    requires
        complete(g),
        !has_clash(g),
    ensures
        units_full(g),
{
    lemma_all_tokens();
    assert forall|u: Unit, k: int| 0 <= k < 9 implies #[trigger] unit_values(g, u, k) == all_tokens() by {
        let f = |m: int| value_of(g[unit_cell(u, k, m)]);
        let places = set_int_range(0, 9);
        lemma_int_range(0, 9);
        assert forall|m: int| 0 <= m < 9 implies #[trigger] g[unit_cell(u, k, m)].contains(f(m)) by {
            lemma_unit_cell(u, k, m, m);
            let c = g[unit_cell(u, k, m)];
            assert(solved(c));
            lemma_token_set_finite(c);
        }
        assert(injective_on(f, places)) by {
            assert forall|m: int, n: int| places.contains(m) && places.contains(n) && #[trigger] f(m) == #[trigger] f(n) implies m == n by {
                lemma_unit_cell(u, k, m, n);
                lemma_unit_cell(u, k, n, m);
                let (i, j) = (unit_cell(u, k, m), unit_cell(u, k, n));
                assert(g[i].contains(f(m)) && g[j].contains(f(n)));
                if i > j {
                    assert(clash_at(g, u, i, j, f(m)));
                } else if j > i {
                    assert(clash_at(g, u, j, i, f(m)));
                }
            }
        }
        let image = places.map(f);
        lemma_map_size(places, image, f);
        assert(image.subset_of(unit_values(g, u, k))) by {
            assert forall|t: Token| #[trigger] image.contains(t) implies unit_values(g, u, k).contains(t) by {
                let m = choose|m: int| places.contains(m) && f(m) == t;
                lemma_unit_cell(u, k, m, m);
                assert(g[unit_cell(u, k, m)].contains(t));
            }
        }
        let values = unit_values(g, u, k);
        lemma_token_set_finite(values);
        lemma_len_subset(image, values);
        lemma_subset_equality(values, all_tokens());
    }
}

} // verus!

//! Boards as sequences of 81 candidate sets, and what it means to solve one.

use crate::cell::SudokuCell;
use crate::peers::is_peer;
use vstd::prelude::*;

verus! {

/// A board: 81 candidate sets, indexed by `row * 9 + col`.
pub type SudokuBoard = Vec<SudokuCell>;

/// `sol` is a completed grid: 81 digits, no two peers alike.
pub open spec fn is_grid(sol: Seq<int>) -> bool {
    &&& sol.len() == 81
    &&& forall|i: int| 0 <= i < 81 ==> 1 <= #[trigger] sol[i] <= 9
    &&& forall|i: int, j: int| #[trigger] is_peer(i, j) ==> sol[i] != sol[j]
}

/// `sol` is a completed grid that every cell of `b` allows.
pub open spec fn is_solution_of(sol: Seq<int>, b: Seq<SudokuCell>) -> bool {
    &&& is_grid(sol)
    &&& b.len() == 81
    &&& forall|i: int| 0 <= i < 81 ==> #[trigger] b[i].has(sol[i])
}

/// Each cell of `b` allows a subset of what the same cell of `b0` allows.
pub open spec fn refines(b: Seq<SudokuCell>, b0: Seq<SudokuCell>) -> bool {
    &&& b.len() == 81
    &&& b0.len() == 81
    &&& forall|i: int| 0 <= i < 81 ==> (#[trigger] b[i]).subset_of(b0[i])
}

/// Every cell holds exactly one candidate.
pub open spec fn all_fixed(b: Seq<SudokuCell>) -> bool {
    forall|i: int| 0 <= i < 81 ==> (#[trigger] b[i]).count() == 1
}

/// A solved board: 81 cells, each with exactly one candidate, and no two
/// peers sharing a digit.
pub open spec fn is_solved(b: Seq<SudokuCell>) -> bool {
    &&& b.len() == 81
    &&& all_fixed(b)
    &&& forall|i: int, j: int, d: int| #[trigger] is_peer(i, j) && #[trigger] b[i].has(d) ==> !b[j].has(d)
}

/// Every cell is stored within the nine digit bits.
pub open spec fn nine_bits(b: Seq<SudokuCell>) -> bool {
    forall|i: int| 0 <= i < b.len() ==> (#[trigger] b[i]).0 < 512
}

/// Every cell that holds one candidate in `b0` stands unchanged in `b`.
pub open spec fn keeps_fixed(b: Seq<SudokuCell>, b0: Seq<SudokuCell>) -> bool {
    forall|i: int| 0 <= i < 81 && (#[trigger] b0[i]).count() == 1 ==> b[i] == b0[i]
}

/// Two boards within nine bits whose cells are all fixed to the same digits
/// are equal.
pub proof fn lemma_fixed_boards_equal(a: Seq<SudokuCell>, b: Seq<SudokuCell>)
    requires
        a.len() == 81,
        b.len() == 81,
        nine_bits(a),
        nine_bits(b),
        all_fixed(a),
        all_fixed(b),
        forall|i: int, d: int| 0 <= i < 81 ==> (#[trigger] a[i].has(d) <==> b[i].has(d)),
    ensures
        a == b,
{
    assert forall|i: int| 0 <= i < 81 implies #[trigger] a[i] == b[i] by {
        a[i].lemma_count_zero();
        let d = choose|d: int| a[i].has(d);
        a[i].lemma_single(d);
        assert(b[i].has(d));
        b[i].lemma_single(d);
        a[i].lemma_single_canonical(d);
        b[i].lemma_single_canonical(d);
    }
    assert(a =~= b);
}

/// No two peers are fixed to the same digit.
pub open spec fn fixed_consistent(b: Seq<SudokuCell>) -> bool {
    forall|i: int, j: int, d: int| #[trigger] is_peer(i, j) && #[trigger] b[i].is_single(d) ==> !b[j].is_single(d)
}

/// Two peers fixed to one digit leave no solution.
pub proof fn lemma_conflict_unsolvable(b: Seq<SudokuCell>)
    requires
        b.len() == 81,
        !fixed_consistent(b),
    ensures
        forall|sol: Seq<int>| !#[trigger] is_solution_of(sol, b),
{
    let (i, j, d) = choose|i: int, j: int, d: int|
        #[trigger] is_peer(i, j) && #[trigger] b[i].is_single(d) && b[j].is_single(d);
    assert forall|sol: Seq<int>| !#[trigger] is_solution_of(sol, b) by {
        if is_solution_of(sol, b) {
            assert(b[i].has(sol[i]) && b[j].has(sol[j]));
            assert(sol[i] != sol[j]);
        }
    }
}

/// A board with every cell fixed and no two peers alike is solved.
pub proof fn lemma_consistent_solved(b: Seq<SudokuCell>)
    requires
        b.len() == 81,
        all_fixed(b),
        fixed_consistent(b),
    ensures
        is_solved(b),
{
    assert forall|i: int, j: int, d: int| #[trigger] is_peer(i, j) && #[trigger] b[i].has(d) implies !b[j].has(d) by {
        b[i].lemma_single(d);
        if b[j].has(d) {
            b[j].lemma_single(d);
        }
    }
}

/// No cell can lose a candidate to a fixed peer: every cell has a candidate,
/// and a cell with several holds no digit that a peer is fixed to.
pub open spec fn stable(b: Seq<SudokuCell>) -> bool {
    &&& b.len() == 81
    &&& forall|i: int| 0 <= i < 81 ==> (#[trigger] b[i]).count() >= 1
    &&& forall|i: int, j: int, d: int|
        #[trigger] is_peer(i, j) && b[i].count() != 1 && #[trigger] b[j].is_single(d) ==> !b[i].has(d)
}

/// The digit of each cell of a board whose cells are all fixed.
pub open spec fn grid_of(s: Seq<SudokuCell>) -> Seq<int> {
    Seq::new(81, |i: int| choose|d: int| s[i].has(d))
}

/// A solved board that refines `b` spells out a solution of `b`.
pub proof fn lemma_solved_grid(s: Seq<SudokuCell>, b: Seq<SudokuCell>)
    requires
        is_solved(s),
        refines(s, b),
    ensures
        is_solution_of(grid_of(s), b),
{
    let g = grid_of(s);
    assert forall|i: int| 0 <= i < 81 implies s[i].has(#[trigger] g[i]) by {
        s[i].lemma_count_zero();
        assert(s[i].count() == 1);
    }
    assert forall|i: int| 0 <= i < 81 implies 1 <= #[trigger] g[i] <= 9 && b[i].has(g[i]) by {
        assert(s[i].has(g[i]));
    }
    assert forall|i: int, j: int| #[trigger] is_peer(i, j) implies g[i] != g[j] by {
        assert(s[i].has(g[i]));
        assert(s[j].has(g[j]));
    }
}

/// The number of candidates over all cells.
pub open spec fn total(b: Seq<SudokuCell>) -> nat
    decreases b.len(),
{
    if b.len() == 0 {
        0
    } else {
        total(b.drop_last()) + b.last().count()
    }
}

/// Fewer candidates per cell means fewer candidates in all; one cell with
/// strictly fewer makes the total strictly smaller.
pub proof fn lemma_total_mono(a: Seq<SudokuCell>, b: Seq<SudokuCell>)
    requires
        a.len() == b.len(),
        forall|i: int| 0 <= i < a.len() ==> (#[trigger] a[i]).count() <= b[i].count(),
    ensures
        total(a) <= total(b),
        (exists|i: int| 0 <= i < a.len() && (#[trigger] a[i]).count() < b[i].count()) ==> total(a)
            < total(b),
    decreases a.len(),
{
    if a.len() > 0 {
        let (a1, b1) = (a.drop_last(), b.drop_last());
        assert forall|i: int| 0 <= i < a1.len() implies (#[trigger] a1[i]).count() <= b1[i].count() by {
            assert(a1[i] == a[i] && b1[i] == b[i]);
        }
        lemma_total_mono(a1, b1);
        assert(a.last().count() <= b.last().count()) by {
            assert(a[a.len() - 1] == a.last());
        }
        if exists|i: int| 0 <= i < a.len() && (#[trigger] a[i]).count() < b[i].count() {
            let i = choose|i: int| 0 <= i < a.len() && (#[trigger] a[i]).count() < b[i].count();
            if i < a.len() - 1 {
                assert(a1[i] == a[i] && b1[i] == b[i]);
            }
        }
    }
}

/// A refinement has no more candidates than the board it refines.
pub proof fn lemma_refines_total(a: Seq<SudokuCell>, b: Seq<SudokuCell>)
    requires
        refines(a, b),
    ensures
        total(a) <= total(b),
        (exists|i: int| 0 <= i < 81 && (#[trigger] a[i]).count() < b[i].count()) ==> total(a) < total(
            b,
        ),
{
    assert forall|i: int| 0 <= i < a.len() implies (#[trigger] a[i]).count() <= b[i].count() by {
        crate::cell::lemma_count_mono(a[i], b[i], 9);
    }
    lemma_total_mono(a, b);
}

} // verus!

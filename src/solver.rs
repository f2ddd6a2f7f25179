//! Constraint propagation and backtracking search.

use crate::board::{
    grid_of,
    all_fixed, fixed_consistent, is_solution_of, keeps_fixed, nine_bits, is_solved, lemma_conflict_unsolvable,
    lemma_consistent_solved, lemma_refines_total, lemma_solved_grid, refines, stable,
    total, SudokuBoard,
};
use crate::cell::SudokuCell;
use crate::codec::{cell_for, is_fully_given, lemma_given_cell, lemma_round_trip, parse_board};
use crate::peers::{is_peer, PeerTable};
use vstd::prelude::*;

verus! {

/// How a run of propagation ended.
#[derive(Clone, Copy, PartialEq, Eq, Structural, Debug)]
pub enum Propagation {
    /// A cell lost its last candidate: the board has no solution.
    Contradiction,
    /// No pass makes progress and some cell still has several candidates.
    Stalled,
    /// Every cell holds exactly one candidate.
    Solved,
}

/// The digits that the fixed peers of cell `i` hold.
fn fixed_peer_digits(peers: &PeerTable, board: &SudokuBoard, i: usize) -> (r: SudokuCell)
    requires
        peers.wf(),
        board@.len() == 81,
        i < 81,
    ensures
        r.0 < 512,
        forall|sol: Seq<int>| #[trigger] is_solution_of(sol, board@) ==> !r.has(sol[i as int]),
        forall|d: int| #[trigger] r.has(d) ==> exists|j: int| is_peer(i as int, j) && board@[j].is_single(d),
        forall|j: int, d: int| is_peer(i as int, j) && #[trigger] board@[j].is_single(d) ==> r.has(d),
{
    let mut peer_values = SudokuCell::new();
    let plist = peers.get(i);
    let mut k: usize = 0;
    while k < plist.len()
        invariant
            peers.wf(),
            board@.len() == 81,
            i < 81,
            PeerTable::lists_peers_of(plist@, i as int),
            k <= plist@.len(),
            peer_values.0 < 512,
            forall|sol: Seq<int>| #[trigger] is_solution_of(sol, board@) ==> !peer_values.has(sol[i as int]),
            forall|d: int| #[trigger] peer_values.has(d) ==> exists|j: int| is_peer(i as int, j) && board@[j].is_single(d),
            forall|k2: int, d: int| 0 <= k2 < k && #[trigger] board@[plist@[k2] as int].is_single(d) ==> peer_values.has(d),
        decreases plist@.len() - k,
    {
        let p = plist[k];
        assert(is_peer(i as int, p as int));
        let peer = board[p];
        if peer.size() == 1 {
            let first = peer.get_first();
            if let Some(v) = first {
                proof {
                    peer.lemma_single(v as int);
                }
                let ghost before = peer_values;
                peer_values.set(v);
                assert forall|sol: Seq<int>| #[trigger] is_solution_of(sol, board@) implies !peer_values.has(sol[i as int]) by {
                    assert(board@[p as int].has(sol[p as int]));
                    assert(sol[i as int] != sol[p as int]);
                    assert(!before.has(sol[i as int]));
                }
                assert forall|d: int| #[trigger] peer_values.has(d) implies exists|j: int| is_peer(i as int, j) && board@[j].is_single(d) by {
                    if d == v {
                        assert(is_peer(i as int, p as int) && board@[p as int].is_single(d));
                    } else {
                        assert(before.has(d));
                    }
                }
                assert forall|k2: int, d: int| 0 <= k2 < k + 1 && #[trigger] board@[plist@[k2] as int].is_single(d) implies peer_values.has(d) by {
                    if k2 == k {
                        assert(board@[p as int].has(v as int));
                    } else {
                        assert(before.has(d));
                    }
                }
            }
        } else {
            assert forall|k2: int, d: int| 0 <= k2 < k + 1 && #[trigger] board@[plist@[k2] as int].is_single(d) implies peer_values.has(d) by {
                if k2 == k {
                    peer.lemma_count_single(d);
                }
            }
        }
        k = k + 1;
    }
    assert forall|j: int, d: int| is_peer(i as int, j) && #[trigger] board@[j].is_single(d) implies peer_values.has(d) by {
        let k2 = choose|k2: int| 0 <= k2 < plist@.len() && plist@[k2] == j;
        assert(board@[plist@[k2] as int].is_single(d));
    }
    peer_values
}

/// One pass over the 81 cells: each cell with several candidates loses the
/// digits of its fixed peers. `None` when a cell is left without candidates;
/// otherwise whether some cell became fixed, and whether every cell was
/// fixed already.
fn propagation_pass(peers: &PeerTable, board: &mut SudokuBoard) -> (r: Option<(bool, bool)>)
    requires
        peers.wf(),
        old(board)@.len() == 81,
    ensures
        refines(final(board)@, old(board)@),
        keeps_fixed(final(board)@, old(board)@),
        nine_bits(old(board)@) ==> nine_bits(final(board)@),
        forall|sol: Seq<int>| #[trigger] is_solution_of(sol, old(board)@) ==> is_solution_of(sol, final(board)@),
        r is None ==> forall|sol: Seq<int>| !#[trigger] is_solution_of(sol, old(board)@),
        r matches Some((progress, solved)) ==> {
            &&& progress ==> total(final(board)@) < total(old(board)@)
            &&& !progress ==> stable(final(board)@) && (solved <==> all_fixed(final(board)@))
        },
        stable(old(board)@) ==> final(board)@ == old(board)@ && r matches Some((false, _)),
{
    let ghost b0 = board@;
    let mut made_progress = false;
    let mut solved = true;
    let mut i: usize = 0;
    while i < 81
        invariant
            peers.wf(),
            i <= 81,
            b0 == old(board)@,
            board@.len() == 81,
            refines(board@, b0),
            nine_bits(b0) ==> nine_bits(board@),
            forall|sol: Seq<int>| #[trigger] is_solution_of(sol, b0) ==> is_solution_of(sol, board@),
            forall|j: int| i <= j < 81 ==> #[trigger] board@[j] == b0[j],
            forall|j: int| 0 <= j < 81 && b0[j].count() == 1 ==> #[trigger] board@[j] == b0[j],
            made_progress ==> total(board@) < total(b0),
            !made_progress ==> forall|j: int| 0 <= j < 81 && (#[trigger] board@[j]).count() == 1 ==> b0[j].count() == 1,
            !made_progress ==> forall|j: int| 0 <= j < i && (#[trigger] b0[j]).count() != 1 ==> board@[j].count() >= 2,
            !made_progress ==> forall|j: int, p: int, d: int|
                0 <= j < i && #[trigger] is_peer(j, p) && b0[j].count() != 1 && #[trigger] board@[p].is_single(d)
                    ==> !board@[j].has(d),
            !made_progress ==> (solved <==> forall|j: int| 0 <= j < i ==> (#[trigger] b0[j]).count() == 1),
            stable(b0) ==> board@ == b0 && !made_progress,
        decreases 81 - i,
    {
        let cur = board[i];
        if cur.size() != 1 {
            let pv = fixed_peer_digits(peers, board, i);
            let ghost before = board@;
            let mut c = cur;
            c.remove_all(&pv);
            board.set(i, c);
            proof {
                if nine_bits(b0) {
                    assert forall|j: int| 0 <= j < board@.len() implies (#[trigger] board@[j]).0 < 512 by {
                        assert(before[j].0 < 512);
                    }
                }
                assert forall|sol: Seq<int>| #[trigger] is_solution_of(sol, b0) implies is_solution_of(sol, board@) by {
                    assert(is_solution_of(sol, before));
                    assert(c.has(sol[i as int]));
                }
                assert(refines(board@, b0)) by {
                    assert forall|j: int| 0 <= j < 81 implies (#[trigger] board@[j]).subset_of(b0[j]) by {
                        if j != i {
                            assert(board@[j] == before[j]);
                        }
                    }
                }
                lemma_refines_total(board@, before);
                if stable(b0) {
                    assert forall|d: int| !(#[trigger] cur.has(d) && pv.has(d)) by {
                        if pv.has(d) {
                            let j = choose|j: int| is_peer(i as int, j) && before[j].is_single(d);
                        }
                    }
                    assert(board@ =~= b0);
                }
            }
            let n = c.size();
            if n == 0 {
                proof {
                    c.lemma_count_zero();
                    cur.lemma_count_zero();
                    assert forall|sol: Seq<int>| !#[trigger] is_solution_of(sol, b0) by {
                        if is_solution_of(sol, b0) {
                            assert(is_solution_of(sol, board@));
                            assert(board@[i as int].has(sol[i as int]));
                        }
                    }
                }
                return None;
            } else if n == 1 {
                proof {
                    crate::cell::lemma_count_mono(c, cur, 9);
                    lemma_refines_total(board@, b0);
                    if !made_progress {
                        assert(board@[i as int].count() < b0[i as int].count());
                    }
                }
                made_progress = true;
            } else {
                proof {
                    if !made_progress {
                        assert forall|j: int, p: int, d: int|
                            0 <= j < i + 1 && #[trigger] is_peer(j, p) && b0[j].count() != 1 && #[trigger] board@[p].is_single(d)
                                implies !board@[j].has(d) by {
                            if p == i {
                                c.lemma_count_single(d);
                            } else {
                                assert(board@[p] == before[p]);
                                if j == i {
                                    assert(pv.has(d));
                                } else {
                                    assert(board@[j] == before[j]);
                                }
                            }
                        }
                    }
                }
                solved = false;
            }
        }
        i = i + 1;
    }
    proof {
        if !made_progress {
            assert forall|j: int| 0 <= j < 81 implies (#[trigger] board@[j]).count() >= 1 by {
                if b0[j].count() == 1 {
                    assert(board@[j] == b0[j]);
                }
            }
            assert forall|j: int, p: int, d: int|
                #[trigger] is_peer(j, p) && board@[j].count() != 1 && #[trigger] board@[p].is_single(d)
                    implies !board@[j].has(d) by {
                if b0[j].count() == 1 {
                    assert(board@[j] == b0[j]);
                }
            }
            if solved {
                assert forall|j: int| 0 <= j < 81 implies (#[trigger] board@[j]).count() == 1 by {
                    assert(b0[j].count() == 1);
                    assert(board@[j] == b0[j]);
                }
            }
            if all_fixed(board@) {
                assert forall|j: int| 0 <= j < 81 implies (#[trigger] b0[j]).count() == 1 by {
                    assert(board@[j].count() == 1);
                }
            }
        }
    }
    Some((made_progress, solved))
}

/// Runs passes until one makes no progress or finds a contradiction. No
/// solution of the board is lost. Unless it finds a contradiction it leaves
/// the board stable, and on a stable board it changes nothing: running it a
/// second time makes no further progress.
pub fn propagate(peers: &PeerTable, board: &mut SudokuBoard) -> (r: Propagation)
    requires
        peers.wf(),
        old(board)@.len() == 81,
    ensures
        refines(final(board)@, old(board)@),
        keeps_fixed(final(board)@, old(board)@),
        nine_bits(old(board)@) ==> nine_bits(final(board)@),
        forall|sol: Seq<int>| #[trigger] is_solution_of(sol, old(board)@) ==> is_solution_of(sol, final(board)@),
        r is Contradiction ==> forall|sol: Seq<int>| !#[trigger] is_solution_of(sol, old(board)@),
        !(r is Contradiction) ==> stable(final(board)@),
        r is Solved <==> (!(r is Contradiction) && all_fixed(final(board)@)),
        stable(old(board)@) ==> final(board)@ == old(board)@ && !(r is Contradiction),
{
    let ghost b_in = board@;
    let mut made_progress = true;
    let mut solved = false;
    while made_progress
        invariant
            peers.wf(),
            b_in == old(board)@,
            refines(board@, b_in),
            keeps_fixed(board@, b_in),
            nine_bits(b_in) ==> nine_bits(board@),
            forall|sol: Seq<int>| #[trigger] is_solution_of(sol, b_in) ==> is_solution_of(sol, board@),
            !made_progress ==> stable(board@) && (solved <==> all_fixed(board@)),
            stable(b_in) ==> board@ == b_in,
        decreases total(board@) + if made_progress { 1nat } else { 0nat },
    {
        let ghost before = board@;
        match propagation_pass(peers, board) {
            None => {
                return Propagation::Contradiction;
            },
            Some((progress, s)) => {
                proof {
                    assert forall|j: int| 0 <= j < 81 implies (#[trigger] board@[j]).subset_of(b_in[j]) by {
                        assert(board@[j].subset_of(before[j]));
                        assert(before[j].subset_of(b_in[j]));
                    }
                    assert forall|j: int| 0 <= j < 81 && (#[trigger] b_in[j]).count() == 1 implies board@[j] == b_in[j] by {
                        assert(before[j] == b_in[j]);
                    }
                    lemma_refines_total(board@, before);
                }
                made_progress = progress;
                solved = s;
            },
        }
    }
    if solved {
        Propagation::Solved
    } else {
        Propagation::Stalled
    }
}

/// Whether no two peers are fixed to the same digit.
fn no_conflicts(peers: &PeerTable, board: &SudokuBoard) -> (r: bool)
    requires
        peers.wf(),
        board@.len() == 81,
    ensures
        r <==> fixed_consistent(board@),
{
    let mut i: usize = 0;
    while i < 81
        invariant
            peers.wf(),
            board@.len() == 81,
            i <= 81,
            forall|i2: int, j: int, d: int|
                0 <= i2 < i && #[trigger] is_peer(i2, j) && #[trigger] board@[i2].is_single(d) ==> !board@[j].is_single(d),
        decreases 81 - i,
    {
        if board[i].size() == 1 {
            let plist = peers.get(i);
            let mine = board[i].get_first();
            proof {
                board@[i as int].lemma_count_zero();
                if let Some(v) = mine {
                    board@[i as int].lemma_single(v as int);
                }
            }
            let mut k: usize = 0;
            while k < plist.len()
                invariant
                    peers.wf(),
                    board@.len() == 81,
                    i < 81,
                    PeerTable::lists_peers_of(plist@, i as int),
                    k <= plist@.len(),
                    mine matches Some(v) && board@[i as int].is_single(v as int),
                    forall|k2: int, d: int|
                        0 <= k2 < k && board@[i as int].is_single(d) ==> !#[trigger] board@[plist@[k2] as int].is_single(d),
                decreases plist@.len() - k,
            {
                let p = plist[k];
                assert(is_peer(i as int, p as int));
                if board[p].size() == 1 {
                    let theirs = board[p].get_first();
                    proof {
                        board@[p as int].lemma_count_zero();
                        if let Some(w) = theirs {
                            board@[p as int].lemma_single(w as int);
                        }
                    }
                    if mine == theirs {
                        proof {
                            let v = mine->Some_0 as int;
                            assert(is_peer(i as int, p as int) && board@[i as int].is_single(v) && board@[p as int].is_single(v));
                        }
                        return false;
                    }
                } else {
                    proof {
                        assert forall|d: int| !#[trigger] board@[p as int].is_single(d) by {
                            if board@[p as int].is_single(d) {
                                board@[p as int].lemma_count_single(d);
                            }
                        }
                    }
                }
                k = k + 1;
            }
            proof {
                assert forall|i2: int, j: int, d: int|
                    0 <= i2 < i + 1 && #[trigger] is_peer(i2, j) && #[trigger] board@[i2].is_single(d) implies !board@[j].is_single(d) by {
                    if i2 == i {
                        let k2 = choose|k2: int| 0 <= k2 < plist@.len() && plist@[k2] == j;
                        assert(!board@[plist@[k2] as int].is_single(d));
                    }
                }
            }
        } else {
            proof {
                assert forall|d: int| !#[trigger] board@[i as int].is_single(d) by {
                    if board@[i as int].is_single(d) {
                        board@[i as int].lemma_count_single(d);
                    }
                }
            }
        }
        i = i + 1;
    }
    true
}

/// Solves `board` with a table of peers that the caller built: propagation,
/// then, where it stalls, a trial of each candidate of the first cell with
/// the fewest candidates, in ascending order. `None` exactly when no
/// completed grid fits the board.
pub fn try_solve_with(peers: &PeerTable, board: SudokuBoard) -> (r: Option<SudokuBoard>)
    requires
        peers.wf(),
        board@.len() == 81,
    ensures
        r matches Some(s) ==> {
            &&& is_solved(s@)
            &&& refines(s@, board@)
            &&& keeps_fixed(s@, board@)
            &&& nine_bits(board@) ==> nine_bits(s@)
        },
        r is None <==> forall|sol: Seq<int>| !#[trigger] is_solution_of(sol, board@),
        is_solved(board@) ==> (r matches Some(s) && s@ == board@),
    decreases total(board@),
{
    let ghost b_in = board@;
    if !no_conflicts(peers, &board) {
        proof {
            lemma_conflict_unsolvable(board@);
        }
        return None;
    }
    let mut board = board;
    let outcome = propagate(peers, &mut board);
    proof {
        lemma_refines_total(board@, b_in);
    }
    let r = match outcome {
        Propagation::Contradiction => None,
        Propagation::Solved => {
            if no_conflicts(peers, &board) {
                proof {
                    lemma_consistent_solved(board@);
                }
                Some(board)
            } else {
                proof {
                    lemma_conflict_unsolvable(board@);
                    assert forall|sol: Seq<int>| !#[trigger] is_solution_of(sol, b_in) by {
                        if is_solution_of(sol, b_in) {
                            assert(is_solution_of(sol, board@));
                        }
                    }
                }
                None
            }
        },
        Propagation::Stalled => search(peers, board, Ghost(b_in)),
    };
    proof {
        if r is Some {
            lemma_solved_grid(r->Some_0@, b_in);
        }
        if is_solved(b_in) {
            lemma_solved_grid(b_in, b_in);
            assert(is_solution_of(grid_of(b_in), b_in));
            let s = r->Some_0;
            assert forall|j: int| 0 <= j < 81 implies #[trigger] s@[j] == b_in[j] by {
                assert(b_in[j].count() == 1);
            }
            assert(s@ =~= b_in);
        }
    }
    r
}

/// The search step on a stable board that is not solved.
fn search(peers: &PeerTable, board: SudokuBoard, b_in: Ghost<Seq<SudokuCell>>) -> (r: Option<SudokuBoard>)
    requires
        peers.wf(),
        stable(board@),
        !all_fixed(board@),
        refines(board@, b_in@),
        keeps_fixed(board@, b_in@),
        nine_bits(b_in@) ==> nine_bits(board@),
        forall|sol: Seq<int>| #[trigger] is_solution_of(sol, b_in@) ==> is_solution_of(sol, board@),
    ensures
        r matches Some(s) ==> {
            &&& is_solved(s@)
            &&& refines(s@, b_in@)
            &&& keeps_fixed(s@, b_in@)
            &&& nine_bits(b_in@) ==> nine_bits(s@)
        },
        r is None ==> forall|sol: Seq<int>| !#[trigger] is_solution_of(sol, b_in@),
    decreases total(board@), 1nat,
{
    let mut smallest_cell: usize = 0;
    let mut smallest_count: u32 = 10;
    let mut i: usize = 0;
    while i < 81
        invariant
            board@.len() == 81,
            i <= 81,
            smallest_count == 10 ==> forall|j: int| 0 <= j < i ==> (#[trigger] board@[j]).count() <= 1,
            smallest_count != 10 ==> smallest_cell < 81 && board@[smallest_cell as int].count() >= 2,
        decreases 81 - i,
    {
        let n = board[i].size();
        if n > 1 && n < smallest_count {
            smallest_cell = i;
            smallest_count = n;
        }
        i = i + 1;
    }
    assert(smallest_count != 10);
    let cell = smallest_cell;
    let mut cands = board[cell].iter();
    loop
        invariant
            peers.wf(),
            board@.len() == 81,
            cell < 81,
            board@[cell as int].count() >= 2,
            refines(board@, b_in@),
            keeps_fixed(board@, b_in@),
            nine_bits(b_in@) ==> nine_bits(board@),
            forall|sol: Seq<int>| #[trigger] is_solution_of(sol, b_in@) ==> is_solution_of(sol, board@),
            cands.wf(),
            cands.cell == board@[cell as int],
            forall|sol: Seq<int>| #[trigger] is_solution_of(sol, board@) ==> cands.pos <= sol[cell as int],
        ensures
            forall|sol: Seq<int>| !#[trigger] is_solution_of(sol, board@),
        decreases 10 - cands.pos,
    {
        let next = cands.next();
        let val = match next {
            None => {
                proof {
                    assert forall|sol: Seq<int>| !#[trigger] is_solution_of(sol, board@) by {
                        if is_solution_of(sol, board@) {
                            assert(board@[cell as int].has(sol[cell as int]));
                        }
                    }
                }
                break;
            },
            Some(v) => v,
        };
        let mut trial = board.clone();
        assert(trial@ =~= board@);
        let mut single = SudokuCell::new();
        single.set(val);
        trial.set(cell, single);
        proof {
            assert(refines(trial@, board@)) by {
                assert forall|j: int| 0 <= j < 81 implies (#[trigger] trial@[j]).subset_of(board@[j]) by {
                    if j != cell {
                        assert(trial@[j] == board@[j]);
                    }
                }
            }
            single.lemma_count_single(val as int);
            if nine_bits(board@) {
                assert forall|j: int| 0 <= j < trial@.len() implies (#[trigger] trial@[j]).0 < 512 by {
                    if j != cell {
                        assert(trial@[j] == board@[j]);
                    }
                }
            }
            lemma_refines_total(trial@, board@);
            assert(trial@[cell as int].count() < board@[cell as int].count());
        }
        let attempt = try_solve_with(peers, trial);
        match attempt {
            Some(s) => {
                proof {
                    assert forall|j: int| 0 <= j < 81 implies (#[trigger] s@[j]).subset_of(b_in@[j]) by {
                        assert(s@[j].subset_of(trial@[j]));
                        assert(trial@[j].subset_of(board@[j]));
                        assert(board@[j].subset_of(b_in@[j]));
                    }
                    assert forall|j: int| 0 <= j < 81 && (#[trigger] b_in@[j]).count() == 1 implies s@[j] == b_in@[j] by {
                        assert(board@[j] == b_in@[j]);
                        assert(trial@[j] == board@[j]);
                    }
                    if nine_bits(b_in@) {
                        assert(nine_bits(trial@));
                    }
                }
                return Some(s);
            },
            None => {
                proof {
                    assert forall|sol: Seq<int>| #[trigger] is_solution_of(sol, board@) implies cands.pos <= sol[cell as int] by {
                        assert(board@[cell as int].has(sol[cell as int]));
                        if sol[cell as int] == val {
                            assert forall|j: int| 0 <= j < 81 implies #[trigger] trial@[j].has(sol[j]) by {
                                if j != cell {
                                    assert(trial@[j] == board@[j]);
                                }
                            }
                            assert(is_solution_of(sol, trial@));
                        }
                    }
                }
            },
        }
    }
    proof {
        assert forall|sol: Seq<int>| !#[trigger] is_solution_of(sol, b_in@) by {
            if is_solution_of(sol, b_in@) {
                assert(is_solution_of(sol, board@));
            }
        }
    }
    None
}

/// Text that gives every cell, two peers alike, reads as a board with no
/// solution, so solving it gives `None`.
pub proof fn lemma_conflicting_givens(s: Seq<char>, i: int, j: int)
    requires
        is_fully_given(s),
        is_peer(i, j),
        s[i] == s[j],
    ensures
        parse_board(s) is Some,
        forall|sol: Seq<int>| !#[trigger] is_solution_of(sol, parse_board(s)->Some_0),
{
    lemma_round_trip(s);
    assert forall|k: int| 0 <= k < s.len() implies crate::codec::is_cell_char(#[trigger] s[k]) by {}
    crate::codec::lemma_recognized_all(s);
    let b = parse_board(s)->Some_0;
    assert forall|sol: Seq<int>| !#[trigger] is_solution_of(sol, b) by {
        if is_solution_of(sol, b) {
            lemma_given_cell(s[i]);
            assert(b[i] == cell_for(s[i]));
            assert(b[j] == cell_for(s[j]));
            assert(b[i].has(sol[i]) && b[j].has(sol[j]));
            assert(sol[i] != sol[j]);
        }
    }
}

/// Solves `board`, building the table of peers first. A board it returns has
/// exactly one candidate per cell, no two peers alike, and keeps to the
/// candidates of `board`.
pub fn try_solve(board: SudokuBoard) -> (r: Option<SudokuBoard>)
    requires
        board@.len() == 81,
    ensures
        r matches Some(s) ==> {
            &&& is_solved(s@)
            &&& refines(s@, board@)
            &&& keeps_fixed(s@, board@)
            &&& nine_bits(board@) ==> nine_bits(s@)
        },
        r is None <==> forall|sol: Seq<int>| !#[trigger] is_solution_of(sol, board@),
        is_solved(board@) ==> (r matches Some(s) && s@ == board@),
{
    let peers = PeerTable::new();
    try_solve_with(&peers, board)
}

} // verus!

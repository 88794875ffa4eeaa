//! A single pass of forced moves before the search.
use vstd::prelude::*;

use crate::board::Board;
use crate::naive::{
    find_possibles, is_candidate, lemma_solution_digit_is_candidate, lemma_with_cell,
    recursive_solve, solve_result, solve_spec, with_cell, SolveState,
};
use crate::naive::{before_at, first_solution, lemma_first_solution_unique, lemma_solution_neighbors_differ};
use crate::positions::{are_neighbors, house_cell, house_seq, lemma_house_cell_bounds, N_CELLS};

verus! {

broadcast use vstd::array::group_array_axioms;

/// `d` is the only candidate of cell `i` on `b`.
pub open spec fn unique_candidate(b: Board, i: int, d: u8) -> bool {
    &&& is_candidate(b, i, d)
    &&& forall|e: u8| #[trigger] is_candidate(b, i, e) ==> e == d
}

/// Visit cell `i`: if it is empty and has a single candidate, place it.
pub open spec fn naked_step(b: Board, i: int) -> Board {
    if b.cell(i) is None && exists|d: u8| unique_candidate(b, i, d) {
        with_cell(b, i, choose|d: u8| unique_candidate(b, i, d))
    } else {
        b
    }
}

/// The board after visiting cells `0..n` in order, each visit seeing the earlier ones.
pub open spec fn naked_pass(b: Board, n: nat) -> Board
    decreases n,
{
    if n == 0 {
        b
    } else {
        naked_step(naked_pass(b, (n - 1) as nat), n - 1)
    }
}

/// Placing a cell's only candidate keeps exactly the same solutions.
proof fn lemma_forced_move_keeps_solutions(b: Board, i: int, d: u8)
    requires
        b.wf(),
        0 <= i < 81,
        b.cell(i) is None,
        unique_candidate(b, i, d),
    ensures
        with_cell(b, i, d).wf(),
        with_cell(b, i, d).extends(b),
        forall|s: Board| #[trigger] s.solution_of(b) <==> s.solution_of(with_cell(b, i, d)),
{
    let c = with_cell(b, i, d);
    lemma_with_cell(b, i, d);
    assert forall|s: Board| #[trigger] s.solution_of(b) <==> s.solution_of(c) by {
        if s.solution_of(b) {
            lemma_solution_digit_is_candidate(b, s, i);
            assert forall|k: int| 0 <= k < 81 && (#[trigger] c.cell(k)).is_some() implies s.cell(k) == c.cell(k) by {
                if k != i {
                    assert(c.cell(k) == b.cell(k));
                }
            }
        }
        if s.solution_of(c) {
            assert forall|k: int| 0 <= k < 81 && (#[trigger] b.cell(k)).is_some() implies s.cell(k) == b.cell(k) by {
                assert(c.cell(k) == b.cell(k));
            }
        }
    }
}

/// One pass over the cells in position order: every empty cell whose candidates
/// reduce to a single digit gets that digit, and later cells see the change.
/// The board keeps its clues and its solutions.
pub fn fill_naked_singles(board: Board) -> (r: Board)
    requires
        board.wf(),
    ensures
        r == naked_pass(board, 81),
        r.wf(),
        r.extends(board),
        forall|s: Board| #[trigger] s.solution_of(board) <==> s.solution_of(r),
        board.filled() ==> r == board,
{
    let mut cur = board;
    for index in 0..N_CELLS
        invariant
            board.wf(),
            cur == naked_pass(board, index as nat),
            cur.wf(),
            cur.extends(board),
            forall|s: Board| #[trigger] s.solution_of(board) <==> s.solution_of(cur),
            board.filled() ==> cur == board,
    {
        let possibles = find_possibles(&cur, index);
        let ghost prev = cur;
        if cur.data[index].value.is_none() && possibles.len() == 1 {
            let d = possibles[0];
            assert(possibles@.contains(d));
            assert(unique_candidate(prev, index as int, d)) by {
                assert forall|e: u8| #[trigger] is_candidate(prev, index as int, e) implies e == d by {
                    assert(possibles@.contains(e));
                }
            }
            proof {
                lemma_forced_move_keeps_solutions(prev, index as int, d);
                lemma_with_cell(prev, index as int, d);
                assert forall|k: int| 0 <= k < 81 && (#[trigger] board.cell(k)).is_some() implies with_cell(
                    prev,
                    index as int,
                    d,
                ).cell(k) == board.cell(k) by {
                    assert(prev.cell(k) == board.cell(k));
                }
            }
            let mut next = cur;
            next.data[index] = crate::board::Tile { value: Some(d) };
            assert(next.data@ =~= prev.data@.update(index as int, crate::board::Tile { value: Some(d) }));
            cur = next;
        } else {
            assert(prev.data@[index as int].value == prev.cell(index as int));
            assert(!(prev.cell(index as int) is None && exists|d: u8|
                unique_candidate(prev, index as int, d))) by {
                if prev.cell(index as int) is None {
                    if exists|d: u8| unique_candidate(prev, index as int, d) {
                        let d = choose|d: u8| unique_candidate(prev, index as int, d);
                        assert(possibles@.contains(d));
                        if possibles.len() >= 2 {
                            assert(possibles@.contains(possibles@[0]));
                            assert(possibles@.contains(possibles@[1]));
                        }
                    }
                }
            }
        }
    }
    cur
}

/// On a solved board, the digit of cell `i` is its only candidate once the cell is emptied.
proof fn lemma_gap_has_one_candidate(s: Board, board: Board, i: int)
    requires
        s.wf(),
        s.filled(),
        s.solved(),
        0 <= i < 81,
        forall|k: int| 0 <= k < 81 && k != i ==> #[trigger] board.cell(k) == s.cell(k),
    ensures
        unique_candidate(board, i, s.cell(i)->Some_0),
{
    let d = s.cell(i)->Some_0;
    assert forall|k: int| 0 <= k < 81 && #[trigger] are_neighbors(i, k) implies board.cell(k) != Some(d) by {
        lemma_solution_neighbors_differ(s, i, k);
    }
    assert forall|e: u8| #[trigger] is_candidate(board, i, e) implies e == d by {
        if e != d {
            let h = i / 9;
            let vals = s.house_digits(house_seq(h));
            assert(s.house_valid(house_seq(h)));
            assert(vals.contains(e));
            let a = choose|a: int| 0 <= a < 9 && vals[a] == e;
            let p = house_cell(h, a);
            lemma_house_cell_bounds(h, a);
            assert(s.cell(p).is_some());
            assert(s.cell(p) == Some(e));
            assert(p != i);
            assert(are_neighbors(i, p));
            assert(board.cell(p) == Some(e));
        }
    }
}

proof fn lemma_gap_pass(s: Board, board: Board, i: int, n: nat)
    requires
        s.wf(),
        s.filled(),
        s.solved(),
        0 <= i < 81,
        n <= 81,
        board.cell(i) is None,
        forall|k: int| 0 <= k < 81 && k != i ==> #[trigger] board.cell(k) == s.cell(k),
    ensures
        naked_pass(board, n) == if n <= i {
            board
        } else {
            s
        },
    decreases n,
{
    if n > 0 {
        lemma_gap_pass(s, board, i, (n - 1) as nat);
        if n - 1 == i {
            lemma_gap_has_one_candidate(s, board, i);
            let d = s.cell(i)->Some_0;
            let c = choose|e: u8| unique_candidate(board, i, e);
            assert(c == d);
            lemma_with_cell(board, i, d);
            let w = with_cell(board, i, d);
            assert forall|k: int| 0 <= k < 81 implies w.data@[k] == s.data@[k] by {
                assert(w.cell(k) == s.cell(k));
            }
            assert(w.data@ =~= s.data@);
            assert(w.data == s.data);
        } else if n - 1 < i {
            assert(board.cell(n - 1) == s.cell(n - 1));
        } else {
            assert(s.cell(n - 1).is_some());
        }
    }
}

/// A solved board with one cell emptied is completed by the single pass alone,
/// and the search that follows makes no guess.
pub proof fn lemma_single_gap_filled(s: Board, board: Board, i: int)
    requires
        s.wf(),
        s.filled(),
        s.solved(),
        0 <= i < 81,
        board.cell(i) is None,
        forall|k: int| 0 <= k < 81 && k != i ==> #[trigger] board.cell(k) == s.cell(k),
    ensures
        naked_pass(board, 81) == s,
        solve_spec(naked_pass(board, 81), 0) == (SolveState { nbacktracks: 0, solved: Some(s) }),
{
    lemma_gap_pass(s, board, i, 81);
}

/// The single pass does not change which solution is found: two results that
/// each keep the first solution of `board` (as `smart_solve` and
/// `recursive_solve` do) hold the same board.
pub proof fn lemma_smart_matches_recursive(board: Board, r1: SolveState, r2: SolveState)
    requires
        board.wf(),
        solve_result(board, r1),
        first_solution(board, r1),
        solve_result(board, r2),
        first_solution(board, r2),
    ensures
        r1.solved == r2.solved,
{
    if r1.solved is Some {
        assert(r1.solved->Some_0.solution_of(board));
        if r2.solved is Some {
            lemma_first_solution_unique(board, r1, r2);
        }
    } else if r2.solved is Some {
        assert(r2.solved->Some_0.solution_of(board));
    }
}

/// Fill the forced cells in one pass, then search. Promises what
/// `recursive_solve` promises, about the board as given.
pub fn smart_solve(board: Board) -> (r: SolveState)
    requires
        board.wf(),
    ensures
        solve_result(board, r),
        r == solve_spec(naked_pass(board, 81), 0),
        first_solution(board, r),
{
    let fb = fill_naked_singles(board);
    let r = recursive_solve(fb);
    proof {
        if r.solved is Some {
            let x = r.solved->Some_0;
            assert forall|y: Board, k: int|
                #![trigger y.solution_of(board), before_at(y, x, k)]
                y.solution_of(board) implies !before_at(y, x, k) by {
                assert(y.solution_of(fb));
            }
        }
        if !r.solved.is_some() {
            assert forall|s: Board| !#[trigger] s.solution_of(board) by {
                if s.solution_of(board) {
                    assert(s.solution_of(fb));
                }
            }
        }
    }
    r
}

} // verus!

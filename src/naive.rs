//! Backtracking search: fill the lowest empty cell with each of its candidates
//! in ascending order, taking forced moves without counting them as guesses.
use vstd::array::spec_array_update;
use vstd::prelude::*;

use crate::board::{Board, Tile};
use crate::digit_set::{insert_seen, new_seen, seen_contains};
use crate::digits::{in_range, lemma_all_digits_iff_distinct};
use crate::positions::{
    are_neighbors, house_cell, house_seq, lemma_house_cell_bounds, lemma_neighbors_share_house,
    neighbors, N_CELLS,
};

verus! {

broadcast use vstd::array::group_array_axioms;

/// The outcome of a search: the effort spent and, if one was found, a solution.
#[derive(Debug)]
pub struct SolveState {
    /// Total number of backtracks.
    pub nbacktracks: u32,
    /// The board, if solved.
    pub solved: Option<Board>,
}

/// `d` is a digit that no neighbour of cell `i` holds on `b`.
pub open spec fn is_candidate(b: Board, i: int, d: u8) -> bool {
    &&& 1 <= d <= 9
    &&& forall|k: int| 0 <= k < 81 && #[trigger] are_neighbors(i, k) ==> b.cell(k) != Some(d)
}

/// `b` with cell `i` set to `d`.
pub open spec fn with_cell(b: Board, i: int, d: u8) -> Board {
    Board { data: spec_array_update(b.data, i, Tile { value: Some(d) }) }
}

/// The candidates of cell `i` below `d`, ascending.
pub open spec fn candidates_upto(b: Board, i: int, d: int) -> Seq<u8>
    decreases d,
{
    if d <= 1 {
        Seq::empty()
    } else {
        let prev = candidates_upto(b, i, d - 1);
        if is_candidate(b, i, (d - 1) as u8) {
            prev.push((d - 1) as u8)
        } else {
            prev
        }
    }
}

/// The candidates of cell `i`, ascending.
pub open spec fn candidates(b: Board, i: int) -> Seq<u8> {
    candidates_upto(b, i, 10)
}

/// The search from `b`, every cell below `from` being filled. A complete board
/// is judged: `(0, Some(b))` when solved, `(1, None)` otherwise. Else the lowest
/// empty cell is taken; a single candidate is placed without counting a guess;
/// otherwise each candidate in ascending order is placed and searched, the first
/// solution is kept, and each failed candidate adds its own count plus one.
pub open spec fn solve_spec(b: Board, from: int) -> SolveState
    decreases 81 - from, 1int, 0int,
{
    if b.filled() {
        if b.solved() {
            SolveState { nbacktracks: 0, solved: Some(b) }
        } else {
            SolveState { nbacktracks: 1, solved: None }
        }
    } else if from < 0 || from >= 81 {
        SolveState { nbacktracks: 0, solved: None }
    } else if b.cell(from) is Some {
        solve_spec(b, from + 1)
    } else {
        let c = candidates(b, from);
        if c.len() == 1 {
            solve_spec(with_cell(b, from, c[0]), from + 1)
        } else {
            try_spec(b, from, c, 0, 0)
        }
    }
}

/// Trying candidates `c[t..]` for cell `i` of `b`, with `acc` backtracks so far.
pub open spec fn try_spec(b: Board, i: int, c: Seq<u8>, t: int, acc: u32) -> SolveState
    decreases 81 - i, 0int, c.len() - t,
{
    if i < 0 || i >= 81 || t < 0 || t >= c.len() {
        SolveState { nbacktracks: acc, solved: None }
    } else {
        let res = solve_spec(with_cell(b, i, c[t]), i + 1);
        if res.solved is Some {
            SolveState { nbacktracks: res.nbacktracks.saturating_add(acc), solved: res.solved }
        } else {
            try_spec(b, i, c, t + 1, acc.saturating_add(res.nbacktracks).saturating_add(1))
        }
    }
}

/// Over filled cells the search moves on unchanged.
proof fn lemma_skip_filled(b: Board, from: int, i: int)
    requires
        0 <= from <= i < 81,
        !b.filled(),
        forall|j: int| from <= j < i ==> (#[trigger] b.cell(j)).is_some(),
    ensures
        solve_spec(b, from) == solve_spec(b, i),
    decreases i - from,
{
    if from < i {
        lemma_skip_filled(b, from + 1, i);
    }
}

/// What a search from `board` promises: a found board solves it, a miss means
/// it has no solution, and a complete board is judged without search.
pub open spec fn solve_result(board: Board, r: SolveState) -> bool {
    &&& match r.solved {
        Some(s) => s.solution_of(board),
        None => !board.has_solution(),
    }
    &&& board.filled() ==> if board.solved() {
        r.nbacktracks == 0 && r.solved == Some(board)
    } else {
        r.nbacktracks == 1 && r.solved is None
    }
}

/// The digit of cell `k`, 0 when empty.
pub open spec fn digit_at(b: Board, k: int) -> int {
    match b.cell(k) {
        Some(v) => v as int,
        None => 0,
    }
}

/// `a` comes before `b`: they agree below cell `k`, and at `k` `a` holds the smaller digit.
pub open spec fn before_at(a: Board, b: Board, k: int) -> bool {
    &&& 0 <= k < 81
    &&& forall|j: int| 0 <= j < k ==> #[trigger] a.cell(j) == b.cell(j)
    &&& digit_at(a, k) < digit_at(b, k)
}

/// A found board is the first solution of `board` in cell order, digits ascending:
/// no solution comes before it.
pub open spec fn first_solution(board: Board, r: SolveState) -> bool {
    r.solved matches Some(x) ==> forall|y: Board, k: int|
        #![trigger y.solution_of(board), before_at(y, x, k)]
        y.solution_of(board) ==> !before_at(y, x, k)
}

/// Two boards that are each the first solution of `board` are the same board.
pub proof fn lemma_first_solution_unique(board: Board, r1: SolveState, r2: SolveState)
    requires
        r1.solved is Some,
        r2.solved is Some,
        r1.solved->Some_0.solution_of(board),
        r2.solved->Some_0.solution_of(board),
        first_solution(board, r1),
        first_solution(board, r2),
    ensures
        r1.solved == r2.solved,
{
    let x = r1.solved->Some_0;
    let y = r2.solved->Some_0;
    if x != y {
        if forall|k: int| 0 <= k < 81 ==> #[trigger] x.cell(k) == y.cell(k) {
            assert forall|k: int| 0 <= k < 81 implies x.data@[k] == y.data@[k] by {
                assert(x.cell(k) == y.cell(k));
            }
            assert(x.data@ =~= y.data@);
            assert(x.data == y.data);
        }
        let k = lemma_first_difference(x, y, 0);
        assert(x.cell(k).is_some() && y.cell(k).is_some());
        if digit_at(x, k) < digit_at(y, k) {
            assert(before_at(x, y, k));
        } else {
            assert(before_at(y, x, k));
        }
    }
}

proof fn lemma_first_difference(x: Board, y: Board, from: int) -> (k: int)
    requires
        0 <= from <= 81,
        forall|j: int| 0 <= j < from ==> #[trigger] x.cell(j) == y.cell(j),
        exists|j: int| 0 <= j < 81 && #[trigger] x.cell(j) != y.cell(j),
    ensures
        0 <= k < 81,
        x.cell(k) != y.cell(k),
        forall|j: int| 0 <= j < k ==> #[trigger] x.cell(j) == y.cell(j),
    decreases 81 - from,
{
    if from == 81 {
        let j = choose|j: int| 0 <= j < 81 && #[trigger] x.cell(j) != y.cell(j);
        assert(false);
        0
    } else if x.cell(from) != y.cell(from) {
        from
    } else {
        lemma_first_difference(x, y, from + 1)
    }
}

/// In a solution, no cell shares its digit with a neighbour.
pub proof fn lemma_solution_neighbors_differ(s: Board, i: int, k: int)
    requires
        s.wf(),
        s.filled(),
        s.solved(),
        0 <= i < 81,
        0 <= k < 81,
        are_neighbors(i, k),
    ensures
        s.cell(i) != s.cell(k),
{
    lemma_neighbors_share_house(i, k);
    let (h, a, b) = choose|h: int, a: int, b: int|
        0 <= h < 27 && 0 <= a < 9 && 0 <= b < 9 && a != b && house_cell(h, a) == i
            && house_cell(h, b) == k;
    let vals = s.house_digits(house_seq(h));
    assert(s.house_valid(house_seq(h)));
    assert(in_range(vals, 9)) by {
        assert forall|j: int| 0 <= j < 9 implies 1 <= #[trigger] vals[j] <= 9 by {
            lemma_house_cell_bounds(h, j);
            assert(s.cell(house_cell(h, j)).is_some());
        }
    }
    lemma_all_digits_iff_distinct(vals);
    assert(vals[a] != vals[b]);
    assert(house_seq(h)[a] == i && house_seq(h)[b] == k);
}

/// The digit that a solution puts in a cell is a candidate there on every board it extends.
pub proof fn lemma_solution_digit_is_candidate(board: Board, s: Board, i: int)
    requires
        s.solution_of(board),
        0 <= i < 81,
    ensures
        s.cell(i).is_some(),
        is_candidate(board, i, s.cell(i)->Some_0),
{
    let d = s.cell(i)->Some_0;
    assert forall|k: int| 0 <= k < 81 && #[trigger] are_neighbors(i, k) implies board.cell(k) != Some(d) by {
        if board.cell(k) == Some(d) {
            lemma_solution_neighbors_differ(s, i, k);
        }
    }
}

/// A solution of `board` that puts `d` in the empty cell `i` solves the board with `d` placed there.
proof fn lemma_solution_of_child(board: Board, s: Board, i: int)
    requires
        s.solution_of(board),
        0 <= i < 81,
    ensures
        s.solution_of(with_cell(board, i, s.cell(i)->Some_0)),
{
    let d = s.cell(i)->Some_0;
    let c = with_cell(board, i, d);
    lemma_with_cell(board, i, d);
    assert forall|k: int| 0 <= k < 81 && (#[trigger] c.cell(k)).is_some() implies s.cell(k) == c.cell(k) by {
        if k != i {
            assert(c.cell(k) == board.cell(k));
        }
    }
}

/// The digits in `1..=9` that no neighbour of cell `index` holds, in ascending order.
pub fn find_possibles(board: &Board, index: usize) -> (r: Vec<u8>)
    requires
        index < N_CELLS,
    ensures
        forall|d: u8| r@.contains(d) <==> is_candidate(*board, index as int, d),
        forall|a: int, b: int| 0 <= a < b < r.len() ==> r@[a] < r@[b],
        r@ == candidates(*board, index as int),
{
    let mut seen = new_seen();
    for k in 0..N_CELLS
        invariant
            index < N_CELLS,
            forall|d: u8| #[trigger]
                seen@.contains(d) <==> exists|j: int|
                    0 <= j < k && are_neighbors(index as int, j) && board.cell(j) == Some(d),
    {
        if neighbors(index, k) {
            match board.data[k].value {
                Some(v) => {
                    assert(board.cell(k as int) == Some(v));
                    insert_seen(&mut seen, v);
                },
                None => {
                    assert(board.cell(k as int) is None);
                },
            }
        }
    }
    assert forall|e: u8| 1 <= e <= 9 implies (#[trigger] seen@.contains(e) <==> !is_candidate(*board, index as int, e)) by {
        if seen@.contains(e) {
            let j = choose|j: int|
                0 <= j < 81 && are_neighbors(index as int, j) && board.cell(j) == Some(e);
        }
    }
    let mut r: Vec<u8> = Vec::new();
    for d in 1..10u8
        invariant
            r@ == candidates_upto(*board, index as int, d as int),
            forall|e: u8| 1 <= e <= 9 ==> (#[trigger] seen@.contains(e) <==> !is_candidate(*board, index as int, e)),
            forall|e: u8| r@.contains(e) <==> 1 <= e < d && !seen@.contains(e),
            forall|a: int, b: int| 0 <= a < b < r.len() ==> r@[a] < r@[b],
            forall|a: int| 0 <= a < r.len() ==> r@[a] < d,
    {
        let ghost r0 = r@;
        if !seen_contains(&seen, d) {
            r.push(d);
            assert forall|e: u8| r@.contains(e) <==> (r0.contains(e) || e == d) by {
                if r0.contains(e) {
                    let j = choose|j: int| 0 <= j < r0.len() && r0[j] == e;
                    assert(r@[j] == e);
                }
                if e == d {
                    assert(r@[r0.len() as int] == d);
                }
                if r@.contains(e) {
                    let j = choose|j: int| 0 <= j < r@.len() && r@[j] == e;
                    if j < r0.len() {
                        assert(r0[j] == e);
                    }
                }
            }
        }
        assert forall|e: u8| r@.contains(e) <==> 1 <= e < d + 1 && !seen@.contains(e) by {
            assert(r0.contains(e) <==> 1 <= e < d && !seen@.contains(e));
        }
    }
    assert forall|d: u8| r@.contains(d) <==> is_candidate(*board, index as int, d) by {
        if seen@.contains(d) {
            let j = choose|j: int|
                0 <= j < 81 && are_neighbors(index as int, j) && board.cell(j) == Some(d);
        }
    }
    r
}

/// The lowest empty cell, given that every cell below `from` is filled.
fn first_empty(board: &Board, from: usize) -> (i: usize)
    requires
        !board.filled(),
        from <= N_CELLS,
        forall|j: int| 0 <= j < from ==> (#[trigger] board.cell(j)).is_some(),
    ensures
        from <= i < N_CELLS,
        board.cell(i as int) is None,
        forall|j: int| 0 <= j < i ==> (#[trigger] board.cell(j)).is_some(),
{
    let mut i: usize = from;
    while i < N_CELLS
        invariant
            from <= i <= N_CELLS,
            !board.filled(),
            forall|j: int| 0 <= j < i ==> (#[trigger] board.cell(j)).is_some(),
        decreases N_CELLS - i,
    {
        if board.data[i].value.is_none() {
            assert(board.cell(i as int) is None);
            return i;
        }
        i = i + 1;
    }
    i
}

/// Two boards with the same cells agree on whether they are solved.
proof fn lemma_solved_by_cells(a: Board, b: Board)
    requires
        forall|i: int| 0 <= i < 81 ==> #[trigger] a.cell(i) == b.cell(i),
    ensures
        a.solved() == b.solved(),
{
    assert forall|h: int|
        #![trigger a.house_valid(house_seq(h))]
        #![trigger b.house_valid(house_seq(h))]
        0 <= h < 27 implies a.house_valid(house_seq(h)) == b.house_valid(house_seq(h)) by {
        let hs = house_seq(h);
        assert forall|k: int| 0 <= k < 9 implies #[trigger] a.cell(hs[k] as int) == b.cell(
            hs[k] as int,
        ) by {
            lemma_house_cell_bounds(h, k);
            let p = hs[k] as int;
            assert(p == house_cell(h, k));
            assert(a.cell(p) == b.cell(p));
        }
        assert(a.house_digits(hs) =~= b.house_digits(hs));
        if a.house_valid(hs) {
            assert forall|k: int| 0 <= k < 9 implies (#[trigger] b.cell(hs[k] as int)).is_some() by {
                assert(a.cell(hs[k] as int).is_some());
            }
        }
        if b.house_valid(hs) {
            assert forall|k: int| 0 <= k < 9 implies (#[trigger] a.cell(hs[k] as int)).is_some() by {
                assert(b.cell(hs[k] as int).is_some());
            }
        }
    }
}

/// The cells of `with_cell(board, i, d)`.
pub(crate) proof fn lemma_with_cell(board: Board, i: int, d: u8)
    requires
        0 <= i < 81,
    ensures
        forall|j: int|
            0 <= j < 81 ==> #[trigger] with_cell(board, i, d).cell(j) == if j == i {
                Some(d)
            } else {
                board.cell(j)
            },
        board.wf() && 1 <= d <= 9 ==> with_cell(board, i, d).wf(),
{
    let c = with_cell(board, i, d);
    assert(c.data@ == board.data@.update(i, Tile { value: Some(d) }));
    if board.wf() && 1 <= d <= 9 {
        assert forall|j: int| 0 <= j < 81 implies match #[trigger] c.cell(j) {
            Some(v) => 1 <= v <= 9,
            None => true,
        } by {
            if j != i {
                assert(c.cell(j) == board.cell(j));
            }
        }
    }
}

/// Place `d` in cell `i`.
fn place(board: Board, i: usize, d: u8) -> (r: Board)
    requires
        i < N_CELLS,
    ensures
        r == with_cell(board, i as int, d),
{
    let mut b = board;
    b.data[i] = Tile { value: Some(d) };
    assert(b.data@ =~= board.data@.update(i as int, Tile { value: Some(d) }));
    b
}

fn search(board: Board, from: usize) -> (r: SolveState)
    requires
        board.wf(),
        from <= N_CELLS,
        forall|j: int| 0 <= j < from ==> (#[trigger] board.cell(j)).is_some(),
    ensures
        solve_result(board, r),
        r == solve_spec(board, from as int),
        first_solution(board, r),
    decreases N_CELLS - from,
{
    if board.is_filled() {
        if board.is_solved() {
            proof {
                assert forall|y: Board, k: int|
                    #![trigger y.solution_of(board), before_at(y, board, k)]
                    y.solution_of(board) implies !before_at(y, board, k) by {
                    if 0 <= k < 81 {
                        assert(y.cell(k) == board.cell(k));
                    }
                }
            }
            return SolveState { nbacktracks: 0, solved: Some(board) };
        } else {
            assert forall|s: Board| !#[trigger] s.solution_of(board) by {
                if s.solution_of(board) {
                    lemma_solved_by_cells(s, board);
                }
            }
            return SolveState { nbacktracks: 1, solved: None };
        }
    }
    let i = first_empty(&board, from);
    let possibles = find_possibles(&board, i);
    proof {
        lemma_skip_filled(board, from as int, i as int);
    }
    if possibles.len() == 1 {
        // a forced move is not a guess
        let d = possibles[0];
        assert(possibles@.contains(d));
        let b = place(board, i, d);
        proof {
            lemma_with_cell(board, i as int, d);
        }
        let res = search(b, i + 1);
        proof {
            assert forall|s: Board| #[trigger] s.solution_of(board) implies s.solution_of(b) by {
                lemma_solution_digit_is_candidate(board, s, i as int);
                let e = s.cell(i as int)->Some_0;
                assert(possibles@.contains(e));
                let t = choose|t: int| 0 <= t < possibles.len() && possibles@[t] == e;
                lemma_solution_of_child(board, s, i as int);
            }
            if let Some(s) = res.solved {
                assert forall|k: int| 0 <= k < 81 && (#[trigger] board.cell(k)).is_some() implies s.cell(k) == board.cell(k) by {
                    assert(b.cell(k) == board.cell(k));
                }
            }
        }
        return res;
    }
    let mut nbacktracks: u32 = 0;
    let mut t: usize = 0;
    while t < possibles.len()
        invariant
            board.wf(),
            from <= i < N_CELLS,
            board.cell(i as int) is None,
            forall|j: int| 0 <= j < i ==> (#[trigger] board.cell(j)).is_some(),
            forall|d: u8| possibles@.contains(d) <==> is_candidate(board, i as int, d),
            t <= possibles.len(),
            forall|u: int| 0 <= u < t ==> !(#[trigger] with_cell(board, i as int, possibles@[u])).has_solution(),
            !board.filled(),
            possibles@ == candidates(board, i as int),
            possibles.len() != 1,
            try_spec(board, i as int, possibles@, t as int, nbacktracks) == solve_spec(board, from as int),
            forall|a: int, b: int| 0 <= a < b < possibles.len() ==> possibles@[a] < possibles@[b],
        decreases possibles.len() - t,
    {
        let d = possibles[t];
        assert(possibles@.contains(d));
        let b = place(board, i, d);
        proof {
            lemma_with_cell(board, i as int, d);
        }
        let res = search(b, i + 1);
        if res.solved.is_some() {
            proof {
                let x = res.solved->Some_0;
                assert forall|y: Board, k: int|
                    #![trigger y.solution_of(board), before_at(y, x, k)]
                    y.solution_of(board) implies !before_at(y, x, k) by {
                    lemma_solution_digit_is_candidate(board, y, i as int);
                    let e = y.cell(i as int)->Some_0;
                    assert(possibles@.contains(e));
                    let u = choose|u: int| 0 <= u < possibles.len() && possibles@[u] == e;
                    lemma_solution_of_child(board, y, i as int);
                    lemma_with_cell(board, i as int, d);
                    assert(b.cell(i as int) == Some(d));
                    assert(x.solution_of(b));
                    assert(x.cell(i as int) == Some(d));
                    if u < t {
                        assert(with_cell(board, i as int, possibles@[u]).has_solution());
                    } else if u == t as int {
                        assert(y.solution_of(b));
                    } else if before_at(y, x, k) {
                        assert(possibles@[t as int] < possibles@[u]);
                        if k < i {
                            assert(board.cell(k).is_some());
                            assert(b.cell(k) == board.cell(k));
                        } else if k > i {
                            assert(y.cell(i as int) == x.cell(i as int));
                        }
                    }
                }
                let s = res.solved->Some_0;
                assert forall|k: int| 0 <= k < 81 && (#[trigger] board.cell(k)).is_some() implies s.cell(k) == board.cell(k) by {
                    assert(b.cell(k) == board.cell(k));
                }
            }
            return SolveState {
                nbacktracks: res.nbacktracks.saturating_add(nbacktracks),
                solved: res.solved,
            };
        }
        nbacktracks = nbacktracks.saturating_add(res.nbacktracks).saturating_add(1);
        t = t + 1;
    }
    proof {
        assert forall|s: Board| !#[trigger] s.solution_of(board) by {
            if s.solution_of(board) {
                lemma_solution_digit_is_candidate(board, s, i as int);
                let e = s.cell(i as int)->Some_0;
                assert(possibles@.contains(e));
                let u = choose|u: int| 0 <= u < possibles.len() && possibles@[u] == e;
                lemma_solution_of_child(board, s, i as int);
                assert(with_cell(board, i as int, possibles@[u]).has_solution());
            }
        }
    }
    SolveState { nbacktracks, solved: None }
}

/// A puzzle with exactly one solution is solved to that solution.
pub proof fn lemma_unique_solution_is_found(board: Board, sol: Board, r: SolveState)
    requires
        board.wf(),
        sol.solution_of(board),
        forall|s: Board| #[trigger] s.solution_of(board) ==> s == sol,
        solve_result(board, r),
    ensures
        r.solved == Some(sol),
{
}

/// Solve `board` by backtracking. A returned board is a solution that keeps
/// every clue; `None` means that no solution exists.
pub fn recursive_solve(board: Board) -> (r: SolveState)
    requires
        board.wf(),
    ensures
        solve_result(board, r),
        r == solve_spec(board, 0),
        first_solution(board, r),
{
    search(board, 0)
}

} // verus!

//! Locating the two cells whose values were exchanged on an otherwise solved board.
use vstd::array::spec_array_update;
use vstd::prelude::*;

use crate::digits::{in_range, lemma_all_digits_iff_distinct};
use crate::filledboard::FilledBoard;
use crate::positions::{house, house_seq, House, N_CELLS, N_HOUSES};

verus! {

broadcast use vstd::array::group_array_axioms;

/// Why a board could not be read as a solved board with two values exchanged.
#[derive(Debug, Clone, Copy, PartialEq, Eq)]
pub enum SwapError {
    /// The number of invalid houses, which is not 2, 4 or 6.
    UnexpectedHouseFailureCount(usize),
    /// Two houses are invalid, and no exchange among their conflicting cells solves the board.
    NoValidSwapFound,
}

/// `(a, b)` is the first collision of `vals`: `b` is the lowest index whose value
/// occurs before it, and `a` is that earlier index.
pub open spec fn is_first_conflict(vals: Seq<u8>, a: int, b: int) -> bool {
    &&& 0 <= a < b < vals.len()
    &&& vals[a] == vals[b]
    &&& forall|x: int, y: int| 0 <= x < y < b ==> vals[x] != vals[y]
    &&& forall|x: int| 0 <= x < a ==> vals[x] != vals[b]
}

/// The pair of ascending positions `a`, `b`.
pub open spec fn sorted_pair(a: usize, b: usize) -> (usize, usize) {
    if a <= b {
        (a, b)
    } else {
        (b, a)
    }
}

/// Number of times `p` occurs in `s`.
pub open spec fn occurrences(s: Seq<usize>, p: usize) -> nat
    decreases s.len(),
{
    if s.len() == 0 {
        0
    } else {
        occurrences(s.drop_last(), p) + if s.last() == p {
            1nat
        } else {
            0nat
        }
    }
}

impl FilledBoard {
    /// The first collision among the cells of `h`, as two board positions.
    pub open spec fn conflict(self, h: Seq<usize>) -> (usize, usize) {
        let (a, b) = choose|a: int, b: int| is_first_conflict(self.rule_digits(h), a, b);
        (h[a], h[b])
    }

    /// The invalid houses among `0..n`, in ascending order.
    pub open spec fn broken_upto(self, n: int) -> Seq<usize>
        decreases n,
    {
        if n <= 0 {
            Seq::empty()
        } else if self.rule_valid(house_seq(n - 1)) {
            self.broken_upto(n - 1)
        } else {
            self.broken_upto(n - 1).push((n - 1) as usize)
        }
    }

    pub open spec fn broken_houses(self) -> Seq<usize> {
        self.broken_upto(27)
    }

    /// The positions of the conflicts of houses `hs`, two per house, in order.
    pub open spec fn conflict_list(self, hs: Seq<usize>) -> Seq<usize>
        decreases hs.len(),
    {
        if hs.len() == 0 {
            Seq::empty()
        } else {
            let c = self.conflict(house_seq(hs.last() as int));
            self.conflict_list(hs.drop_last()).push(c.0).push(c.1)
        }
    }

    /// `self` with the values of cells `i` and `j` exchanged.
    pub open spec fn swapped(self, i: int, j: int) -> FilledBoard {
        FilledBoard {
            data: spec_array_update(spec_array_update(self.data, i, self.data@[j]), j, self.data@[i]),
        }
    }

    /// What `check_swap` returns. With 2, 4 or 6 invalid houses: an ascending
    /// pair of positions from the houses' conflicts whose exchange solves the
    /// board, or `NoValidSwapFound` when no such pair exists.
    pub open spec fn swap_result(self, r: Result<(usize, usize), SwapError>) -> bool {
        let n = self.broken_houses().len();
        let list = self.conflict_list(self.broken_houses());
        if n == 2 || n == 4 || n == 6 {
            match r {
                Ok(p) => {
                    &&& p.0 < p.1 < 81
                    &&& list.contains(p.0)
                    &&& list.contains(p.1)
                    &&& self.swapped(p.0 as int, p.1 as int).solved()
                },
                Err(e) => {
                    &&& e == SwapError::NoValidSwapFound
                    &&& forall|x: usize, y: usize|
                        #![trigger list.contains(x), list.contains(y)]
                        list.contains(x) && list.contains(y) && x < y ==> !self.swapped(
                            x as int,
                            y as int,
                        ).solved()
                },
            }
        } else {
            r == Err::<(usize, usize), SwapError>(SwapError::UnexpectedHouseFailureCount(n as usize))
        }
    }

    /// Find the two cells whose values were exchanged on a solved board. The
    /// invalid houses are counted; with 2, 4 or 6 of them, the positions of their
    /// conflicts are ranked by how many conflicts each appears in, and the first
    /// exchange among them, best ranked first, that solves the board is returned,
    /// in ascending order.
    pub fn check_swap(&self) -> (r: Result<(usize, usize), SwapError>)
        requires
            self.wf(),
        ensures
            self.swap_result(r),
    {
        let mut bad: Vec<usize> = Vec::new();
        for h in 0..N_HOUSES
            invariant
                self.wf(),
                bad@ == self.broken_upto(h as int),
        {
            if !self.is_valid_on_rule(&house(h)) {
                bad.push(h);
            }
        }
        proof {
            self.lemma_broken_bounds(27);
        }
        let n = bad.len();
        if n != 2 && n != 4 && n != 6 {
            return Err(SwapError::UnexpectedHouseFailureCount(n));
        }
        let mut list: Vec<usize> = Vec::new();
        for t in 0..n
            invariant
                self.wf(),
                n == bad.len(),
                bad@ == self.broken_houses(),
                forall|u: int| 0 <= u < bad.len() ==> #[trigger] bad@[u] < 27 && !self.rule_valid(house_seq(bad@[u] as int)),
                list@ == self.conflict_list(bad@.take(t as int)),
                forall|k: int| 0 <= k < list.len() ==> #[trigger] list@[k] < N_CELLS,
        {
            let (a, b) = self.get_conflict(&house(bad[t]));
            assert(bad@.take(t + 1).drop_last() =~= bad@.take(t as int));
            list.push(a);
            list.push(b);
        }
        assert(bad@.take(n as int) =~= bad@);
        let cands = rank_positions(&list);
        match self.repair_among(&cands) {
            Some(p) => {
                assert(list@.contains(p.0) && list@.contains(p.1));
                Ok(p)
            },
            None => {
                assert forall|x: usize, y: usize|
                    #![trigger list@.contains(x), list@.contains(y)]
                    list@.contains(x) && list@.contains(y) && x < y implies !self.swapped(
                        x as int,
                        y as int,
                    ).solved() by {
                    assert(cands@.contains(x) && cands@.contains(y));
                }
                Err(SwapError::NoValidSwapFound)
            },
        }
    }

    /// The first pair of `cands`, in order, whose exchange solves the board, ascending.
    fn repair_among(&self, cands: &Vec<usize>) -> (r: Option<(usize, usize)>)
        requires
            self.wf(),
            forall|k: int| 0 <= k < cands.len() ==> #[trigger] cands@[k] < N_CELLS,
        ensures
            match r {
                Some(p) => p.0 < p.1 < 81 && cands@.contains(p.0) && cands@.contains(p.1)
                    && self.swapped(p.0 as int, p.1 as int).solved(),
                None => forall|x: usize, y: usize|
                    #![trigger cands@.contains(x), cands@.contains(y)]
                    cands@.contains(x) && cands@.contains(y) && x < y ==> !self.swapped(
                        x as int,
                        y as int,
                    ).solved(),
            },
    {
        let mut a: usize = 0;
        while a < cands.len()
            invariant
                self.wf(),
                a <= cands.len(),
                forall|k: int| 0 <= k < cands.len() ==> #[trigger] cands@[k] < N_CELLS,
                forall|a2: int, b2: int|
                    0 <= a2 < a && a2 < b2 < cands.len() && cands@[a2] != cands@[b2] ==> !self.swapped(
                        sorted_pair(cands@[a2], cands@[b2]).0 as int,
                        sorted_pair(cands@[a2], cands@[b2]).1 as int,
                    ).solved(),
            decreases cands.len() - a,
        {
            let mut b: usize = a + 1;
            while b < cands.len()
                invariant
                    self.wf(),
                    a < cands.len(),
                    a + 1 <= b <= cands.len(),
                    forall|k: int| 0 <= k < cands.len() ==> #[trigger] cands@[k] < N_CELLS,
                    forall|a2: int, b2: int|
                        0 <= a2 < a && a2 < b2 < cands.len() && cands@[a2] != cands@[b2] ==> !self.swapped(
                            sorted_pair(cands@[a2], cands@[b2]).0 as int,
                            sorted_pair(cands@[a2], cands@[b2]).1 as int,
                        ).solved(),
                    forall|b2: int|
                        a < b2 < b && cands@[a as int] != cands@[b2] ==> !self.swapped(
                            sorted_pair(cands@[a as int], cands@[b2]).0 as int,
                            sorted_pair(cands@[a as int], cands@[b2]).1 as int,
                        ).solved(),
                decreases cands.len() - b,
            {
                let x = cands[a];
                let y = cands[b];
                if x != y {
                    let lo = if x < y { x } else { y };
                    let hi = if x < y { y } else { x };
                    if self.swap_pair(&lo, &hi).is_solved() {
                        assert(cands@.contains(cands@[a as int]) && cands@.contains(cands@[b as int]));
                        return Some((lo, hi));
                    }
                }
                b = b + 1;
            }
            a = a + 1;
        }
        assert forall|x: usize, y: usize|
            #![trigger cands@.contains(x), cands@.contains(y)]
            cands@.contains(x) && cands@.contains(y) && x < y implies !self.swapped(
                x as int,
                y as int,
            ).solved() by {
            let ax = choose|k: int| 0 <= k < cands.len() && cands@[k] == x;
            let ay = choose|k: int| 0 <= k < cands.len() && cands@[k] == y;
            if ax < ay {
                assert(sorted_pair(cands@[ax], cands@[ay]) == (x, y));
            } else {
                assert(sorted_pair(cands@[ay], cands@[ax]) == (x, y));
            }
        }
        None
    }

    proof fn lemma_broken_bounds(self, n: int)
        requires
            0 <= n <= 27,
        ensures
            self.broken_upto(n).len() <= n,
            forall|u: int|
                0 <= u < self.broken_upto(n).len() ==> #[trigger] self.broken_upto(n)[u] < n
                    && !self.rule_valid(house_seq(self.broken_upto(n)[u] as int)),
        decreases n,
    {
        if n > 0 {
            self.lemma_broken_bounds(n - 1);
        }
    }

    /// The first two positions of `rule`, in its order, that share a value.
    fn get_conflict(&self, rule: &House) -> (r: (usize, usize))
        requires
            self.wf(),
            forall|k: int| 0 <= k < 9 ==> #[trigger] rule@[k] < N_CELLS,
            !self.rule_valid(rule@),
        ensures
            r == self.conflict(rule@),
            rule@.no_duplicates() ==> r.0 != r.1,
            r.0 < N_CELLS,
            r.1 < N_CELLS,
    {
        let ghost vals = self.rule_digits(rule@);
        let mut b: usize = 0;
        while b < 9
            invariant
                b <= 9,
                vals == self.rule_digits(rule@),
                forall|k: int| 0 <= k < 9 ==> #[trigger] rule@[k] < N_CELLS,
                forall|x: int, y: int| 0 <= x < y < b ==> vals[x] != vals[y],
            decreases 9 - b,
        {
            let mut a: usize = 0;
            while a < b
                invariant
                    a <= b < 9,
                    vals == self.rule_digits(rule@),
                    forall|k: int| 0 <= k < 9 ==> #[trigger] rule@[k] < N_CELLS,
                    forall|x: int, y: int| 0 <= x < y < b ==> vals[x] != vals[y],
                    forall|x: int| 0 <= x < a ==> vals[x] != vals[b as int],
                decreases b - a,
            {
                if self.data[rule[a]] == self.data[rule[b]] {
                    proof {
                        lemma_first_conflict_unique(vals, a as int, b as int);
                    }
                    return (rule[a], rule[b]);
                }
                a = a + 1;
            }
            b = b + 1;
        }
        proof {
            assert(in_range(vals, 9)) by {
                assert forall|j: int| 0 <= j < 9 implies 1 <= #[trigger] vals[j] <= 9 by {
                    assert(rule@[j] < N_CELLS);
                }
            }
            lemma_all_digits_iff_distinct(vals);
            assert(vals.no_duplicates()) by {
                assert forall|x: int, y: int| 0 <= x < 9 && 0 <= y < 9 && x != y implies vals[x] != vals[y] by {
                    if y < x {
                        assert(vals[y] != vals[x]);
                    }
                }
            }
        }
        (0, 0)
    }

    /// A copy of the board with the values of cells `i0` and `i1` exchanged.
    pub fn swap_pair(&self, i0: &usize, i1: &usize) -> (r: FilledBoard)
        requires
            *i0 < N_CELLS,
            *i1 < N_CELLS,
        ensures
            r == self.swapped(*i0 as int, *i1 as int),
            self.wf() ==> r.wf(),
    {
        let mut board = *self;
        let v0 = board.data[*i0];
        let v1 = board.data[*i1];
        board.data[*i0] = v1;
        board.data[*i1] = v0;
        let ghost s = self.swapped(*i0 as int, *i1 as int);
        assert(board.data@ =~= s.data@);
        board
    }
}

/// The first conflict of a sequence is the only one.
proof fn lemma_first_conflict_unique(vals: Seq<u8>, a: int, b: int)
    requires
        is_first_conflict(vals, a, b),
    ensures
        forall|x: int, y: int| is_first_conflict(vals, x, y) ==> x == a && y == b,
{
    assert forall|x: int, y: int| is_first_conflict(vals, x, y) implies x == a && y == b by {
        if y < b {
            assert(vals[x] != vals[y]);
        } else if b < y {
            assert(vals[a] != vals[b]);
        } else if x < a {
            assert(vals[x] != vals[b]);
        } else if a < x {
            assert(vals[a] != vals[y]);
        }
    }
}

/// Number of times `p` occurs in `list`.
fn count_of(list: &Vec<usize>, p: usize) -> (r: usize)
    ensures
        r == occurrences(list@, p),
{
    let mut c: usize = 0;
    let mut j: usize = 0;
    while j < list.len()
        invariant
            j <= list.len(),
            c == occurrences(list@.take(j as int), p),
            c <= j,
        decreases list.len() - j,
    {
        assert(list@.take(j + 1).drop_last() =~= list@.take(j as int));
        if list[j] == p {
            c = c + 1;
        }
        j = j + 1;
    }
    assert(list@.take(list.len() as int) =~= list@);
    c
}

/// Whether `v` holds `p`.
fn holds(v: &Vec<usize>, p: usize) -> (r: bool)
    ensures
        r == v@.contains(p),
{
    let mut k: usize = 0;
    while k < v.len()
        invariant
            k <= v.len(),
            forall|j: int| 0 <= j < k ==> v@[j] != p,
        decreases v.len() - k,
    {
        if v[k] == p {
            return true;
        }
        k = k + 1;
    }
    false
}

/// The distinct values of `list`: first those that occur most often, then the
/// others, each group in order of first occurrence.
fn rank_positions(list: &Vec<usize>) -> (r: Vec<usize>)
    ensures
        forall|p: usize| #[trigger] r@.contains(p) <==> list@.contains(p),
        forall|k: int| 0 <= k < r.len() ==> list@.contains(#[trigger] r@[k]),
{
    let mut top: usize = 0;
    for k in 0..list.len()
        invariant
            true,
    {
        let c = count_of(list, list[k]);
        if c > top {
            top = c;
        }
    }
    let mut r: Vec<usize> = Vec::new();
    for pass in 0..2usize
        invariant
            forall|k: int| 0 <= k < r.len() ==> list@.contains(#[trigger] r@[k]),
            pass >= 1 ==> forall|k: int| 0 <= k < list.len() && occurrences(list@, list@[k]) == top
                ==> r@.contains(#[trigger] list@[k]),
            pass == 2 ==> forall|k: int| 0 <= k < list.len() ==> r@.contains(#[trigger] list@[k]),
    {
        for k in 0..list.len()
            invariant
                forall|j: int| 0 <= j < r.len() ==> list@.contains(#[trigger] r@[j]),
                pass >= 1 ==> forall|j: int| 0 <= j < list.len() && occurrences(list@, list@[j]) == top
                    ==> r@.contains(#[trigger] list@[j]),
                forall|j: int|
                    0 <= j < k && (pass == 1 || occurrences(list@, list@[j]) == top) ==> r@.contains(
                        #[trigger] list@[j],
                    ),
        {
            let p = list[k];
            assert(list@.contains(p));
            let wanted = pass == 1 || count_of(list, p) == top;
            if wanted && !holds(&r, p) {
                let ghost before = r@;
                r.push(p);
                assert forall|q: usize| before.contains(q) implies r@.contains(q) by {
                    let j = choose|j: int| 0 <= j < before.len() && before[j] == q;
                    assert(r@[j] == q);
                }
                assert(r@[r.len() - 1] == p);
            }
        }
    }
    assert forall|p: usize| #[trigger] r@.contains(p) <==> list@.contains(p) by {
        if r@.contains(p) {
            let j = choose|j: int| 0 <= j < r.len() && r@[j] == p;
        }
        if list@.contains(p) {
            let j = choose|j: int| 0 <= j < list.len() && list@[j] == p;
            assert(r@.contains(list@[j]));
        }
    }
    r
}

} // verus!

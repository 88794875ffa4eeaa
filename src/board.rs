//! A puzzle in progress: 81 cells, each empty or holding a digit.
use vstd::prelude::*;

use crate::digit_set::{insert_seen, new_seen};
use crate::digits::{all_digits, in_range, lemma_all_digits_iff_distinct, seq_sum};
use crate::positions::{house, house_seq, House, N_CELLS, N_HOUSES};
use crate::text::{board_error, parse_board_chars, reads_as, render, render_board, to_chars, tokens};

pub use crate::records::parse_board_list;

verus! {

/// One cell of a board: a digit in `1..=9`, or `None` when empty.
#[derive(Debug, Clone, Copy, PartialEq, Eq)]
pub struct Tile {
    pub value: Option<u8>,
}

/// A 9x9 board in row-major order.
#[derive(Debug, Clone, Copy, PartialEq, Eq)]
pub struct Board {
    pub data: [Tile; N_CELLS],
}

/// A board read from a list, with the three fields of its header line.
pub struct AnnotatedBoard {
    pub id: String,
    pub src: String,
    pub status: String,
    pub board: Board,
}

impl Board {
    pub open spec fn cell(self, i: int) -> Option<u8> {
        self.data@[i].value
    }

    /// Every cell is empty or holds a digit in `1..=9`.
    pub open spec fn wf(self) -> bool {
        forall|i: int|
            0 <= i < 81 ==> match #[trigger] self.cell(i) {
                Some(v) => 1 <= v <= 9,
                None => true,
            }
    }

    /// No cell is empty.
    pub open spec fn filled(self) -> bool {
        forall|i: int| 0 <= i < 81 ==> (#[trigger] self.cell(i)).is_some()
    }

    /// The values of the cells of `h`, with 0 standing for an empty cell.
    pub open spec fn house_digits(self, h: Seq<usize>) -> Seq<u8> {
        Seq::new(
            9,
            |k: int|
                match self.cell(h[k] as int) {
                    Some(v) => v,
                    None => 0,
                },
        )
    }

    /// Every cell of `h` is filled and together they hold each digit of `1..=9`.
    pub open spec fn house_valid(self, h: Seq<usize>) -> bool {
        &&& forall|k: int| 0 <= k < 9 ==> (#[trigger] self.cell(h[k] as int)).is_some()
        &&& all_digits(self.house_digits(h))
    }

    /// Every one of the 27 houses is valid.
    pub open spec fn solved(self) -> bool {
        forall|h: int| 0 <= h < 27 ==> #[trigger] self.house_valid(house_seq(h))
    }

    /// `self` keeps every digit that `base` holds.
    pub open spec fn extends(self, base: Board) -> bool {
        forall|i: int| 0 <= i < 81 && (#[trigger] base.cell(i)).is_some() ==> self.cell(i) == base.cell(i)
    }

    /// `self` is a complete, valid board that keeps every clue of `base`.
    pub open spec fn solution_of(self, base: Board) -> bool {
        &&& self.wf()
        &&& self.filled()
        &&& self.solved()
        &&& self.extends(base)
    }

    pub open spec fn has_solution(self) -> bool {
        exists|s: Board| #[trigger] s.solution_of(self)
    }

    /// Parse a board from its text: each digit `1`-`9` is a cell, `_` an empty
    /// cell, and other characters separate them. There must be exactly 81 cells.
    pub fn from_str(repr: &str) -> (r: Result<Self, String>)
        ensures
            match r {
                Ok(b) => {
                    &&& board_error(tokens(repr@)) is None
                    &&& b.wf()
                    &&& reads_as(repr@, b)
                },
                Err(e) => board_error(tokens(repr@)) == Some(e@),
            },
    {
        let cs = to_chars(repr);
        assert(cs@.subrange(0, cs@.len() as int) =~= repr@);
        parse_board_chars(&cs, 0, cs.len())
    }

    /// The board as nine lines of nine comma-terminated cells, `_` for an empty one.
    pub fn to_string(&self) -> (r: String)
        requires
            self.wf(),
        ensures
            r@ == render(*self),
    {
        render_board(self)
    }

    /// The verdict on a house does not depend on the order of its members: two
    /// houses that list the same cells, each as often, are judged alike.
    pub proof fn lemma_house_order_irrelevant(self, h1: Seq<usize>, h2: Seq<usize>)
        requires
            h1.len() == 9,
            h1.to_multiset() == h2.to_multiset(),
        ensures
            self.house_valid(h1) == self.house_valid(h2),
    {
        broadcast use vstd::seq_lib::to_multiset_len;

        assert(h2.len() == 9) by {
            assert(h1.to_multiset().len() == h1.len());
            assert(h2.to_multiset().len() == h2.len());
        }
        assert forall|p: usize| h1.contains(p) <==> h2.contains(p) by {
            vstd::seq_lib::to_multiset_contains(h1, p);
            vstd::seq_lib::to_multiset_contains(h2, p);
        }
        if self.house_valid(h1) {
            self.lemma_house_valid_by_members(h1, h2);
        }
        if self.house_valid(h2) {
            self.lemma_house_valid_by_members(h2, h1);
        }
    }

    proof fn lemma_house_valid_by_members(self, h1: Seq<usize>, h2: Seq<usize>)
        requires
            h1.len() == 9,
            h2.len() == 9,
            forall|p: usize| h1.contains(p) <==> h2.contains(p),
            self.house_valid(h1),
        ensures
            self.house_valid(h2),
    {
        assert forall|k: int| 0 <= k < 9 implies (#[trigger] self.cell(h2[k] as int)).is_some() by {
            assert(h2.contains(h2[k]));
            let j = choose|j: int| 0 <= j < 9 && h1[j] == h2[k];
            assert(self.cell(h1[j] as int).is_some());
        }
        let d1 = self.house_digits(h1);
        let d2 = self.house_digits(h2);
        assert forall|d: u8| 1 <= d <= 9 implies #[trigger] d2.contains(d) by {
            assert(d1.contains(d));
            let k = choose|k: int| 0 <= k < 9 && d1[k] == d;
            assert(h1.contains(h1[k]));
            let j = choose|j: int| 0 <= j < 9 && h2[j] == h1[k];
            assert(d2[j] == d);
        }
    }

    /// Check if all spots on the board are filled.
    pub fn is_filled(&self) -> (r: bool)
        ensures
            r == self.filled(),
    {
        let mut i: usize = 0;
        while i < N_CELLS
            invariant
                i <= N_CELLS,
                forall|j: int| 0 <= j < i ==> (#[trigger] self.cell(j)).is_some(),
            decreases N_CELLS - i,
        {
            if self.data[i].value.is_none() {
                assert(self.cell(i as int).is_none());
                return false;
            }
            i = i + 1;
        }
        true
    }

    /// Check if the board is correctly solved: every house holds each digit once.
    pub fn is_solved(&self) -> (r: bool)
        requires
            self.wf(),
        ensures
            r == self.solved(),
    {
        let mut h: usize = 0;
        while h < N_HOUSES
            invariant
                h <= N_HOUSES,
                self.wf(),
                forall|j: int| 0 <= j < h ==> #[trigger] self.house_valid(house_seq(j)),
            decreases N_HOUSES - h,
        {
            if !self.is_valid_on_house(&house(h)) {
                return false;
            }
            h = h + 1;
        }
        true
    }

    /// Checks that every cell of `rule` is filled and that together they hold
    /// each digit once: their sum is 45 and no value repeats.
    pub fn is_valid_on_house(&self, rule: &House) -> (r: bool)
        requires
            self.wf(),
            forall|k: int| 0 <= k < 9 ==> #[trigger] rule@[k] < N_CELLS,
        ensures
            r == self.house_valid(rule@),
    {
        let ghost vals = self.house_digits(rule@);
        let mut sum: u32 = 0;
        let mut k: usize = 0;
        while k < 9
            invariant
                k <= 9,
                self.wf(),
                forall|j: int| 0 <= j < 9 ==> #[trigger] rule@[j] < N_CELLS,
                vals == self.house_digits(rule@),
                forall|j: int| 0 <= j < k ==> (#[trigger] self.cell(rule@[j] as int)).is_some(),
                sum == seq_sum(vals.take(k as int)),
                sum <= 9 * k,
            decreases 9 - k,
        {
            match self.data[rule[k]].value {
                None => {
                    return false;
                },
                Some(v) => {
                    assert(self.cell(rule@[k as int] as int) == Some(v));
                    assert(vals.take(k + 1).drop_last() =~= vals.take(k as int));
                    sum = sum + v as u32;
                },
            }
            k = k + 1;
        }
        assert(vals.take(9) =~= vals);
        assert(in_range(vals, 9)) by {
            assert forall|j: int| 0 <= j < 9 implies 1 <= #[trigger] vals[j] <= 9 by {
                assert(self.cell(rule@[j] as int).is_some());
            }
        }
        proof {
            lemma_all_digits_iff_distinct(vals);
        }
        if sum != 45 {
            return false;
        }
        let mut seen = new_seen();
        let mut k: usize = 0;
        while k < 9
            invariant
                k <= 9,
                self.wf(),
                forall|j: int| 0 <= j < 9 ==> #[trigger] rule@[j] < N_CELLS,
                forall|j: int| 0 <= j < 9 ==> (#[trigger] self.cell(rule@[j] as int)).is_some(),
                vals == self.house_digits(rule@),
                all_digits(vals) <==> vals.no_duplicates(),
                forall|d: u8| #[trigger] seen@.contains(d) <==> exists|j: int| 0 <= j < k && vals[j] == d,
                forall|a: int, b: int| 0 <= a < b < k ==> vals[a] != vals[b],
            decreases 9 - k,
        {
            let v = match self.data[rule[k]].value {
                Some(v) => v,
                None => 0,
            };
            assert(v == vals[k as int]);
            if !insert_seen(&mut seen, v) {
                let ghost j = choose|j: int| 0 <= j < k && vals[j] == v;
                assert(!vals.no_duplicates()) by {
                    assert(vals[j] == vals[k as int]);
                }
                return false;
            }
            k = k + 1;
        }
        assert(vals.no_duplicates()) by {
            assert forall|a: int, b: int| 0 <= a < 9 && 0 <= b < 9 && a != b implies vals[a] != vals[b] by {
                if a > b {
                    assert(vals[b] != vals[a]);
                }
            }
        }
        true
    }
}

} // verus!

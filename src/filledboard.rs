//! A board with a digit in every cell, possibly breaking the rules.
use std::collections::{HashMap, HashSet};
use vstd::prelude::*;

use crate::digits::{all_digits, in_range, lemma_all_digits_iff_distinct, seq_sum};
use crate::positions::{house, house_seq, House, N_CELLS, N_HOUSES};
use crate::text::{filled_board_error, filled_reads_as, parse_filled_chars, to_chars, tokens};

verus! {

broadcast use vstd::std_specs::hash::group_hash_axioms;

/// An already filled board, in row-major order.
#[derive(Clone, Copy, Debug, PartialEq, Eq)]
pub struct FilledBoard {
    pub data: [u8; N_CELLS],
}

/// The positions of `h` whose value on `data` is `v`, in the order of `h`.
pub open spec fn positions_with(data: Seq<u8>, h: Seq<usize>, v: u8) -> Seq<usize>
    decreases h.len(),
{
    if h.len() == 0 {
        Seq::empty()
    } else {
        let rest = positions_with(data, h.drop_last(), v);
        if data[h.last() as int] == v {
            rest.push(h.last())
        } else {
            rest
        }
    }
}

impl FilledBoard {
    /// Every cell holds a digit in `1..=9`.
    pub open spec fn wf(self) -> bool {
        forall|i: int| 0 <= i < 81 ==> 1 <= #[trigger] self.data@[i] <= 9
    }

    /// The values of the cells of `h`.
    pub open spec fn rule_digits(self, h: Seq<usize>) -> Seq<u8> {
        Seq::new(9, |k: int| self.data@[h[k] as int])
    }

    /// The cells of `h` hold each digit of `1..=9`.
    pub open spec fn rule_valid(self, h: Seq<usize>) -> bool {
        all_digits(self.rule_digits(h))
    }

    /// Every one of the 27 houses is valid.
    pub open spec fn solved(self) -> bool {
        forall|h: int| 0 <= h < 27 ==> #[trigger] self.rule_valid(house_seq(h))
    }

    /// Parse a filled board from its text: each digit `1`-`9` is a cell and other
    /// characters separate them. There must be exactly 81 cells, none of them `0` or `_`.
    pub fn from_str(repr: &str) -> (r: Result<Self, String>)
        ensures
            match r {
                Ok(b) => {
                    &&& filled_board_error(tokens(repr@)) is None
                    &&& b.wf()
                    &&& filled_reads_as(repr@, b)
                },
                Err(e) => filled_board_error(tokens(repr@)) == Some(e@),
            },
    {
        let cs = to_chars(repr);
        assert(cs@.subrange(0, cs@.len() as int) =~= repr@);
        parse_filled_chars(&cs, 0, cs.len())
    }

    /// Check if the board is correctly solved.
    pub fn is_solved(&self) -> (r: bool)
        requires
            self.wf(),
        ensures
            r == self.solved(),
    {
        let mut h: usize = 0;
        while h < N_HOUSES
            invariant
                h <= N_HOUSES,
                self.wf(),
                forall|j: int| 0 <= j < h ==> #[trigger] self.rule_valid(house_seq(j)),
            decreases N_HOUSES - h,
        {
            if !self.is_valid_on_rule(&house(h)) {
                return false;
            }
            h = h + 1;
        }
        true
    }

    /// Checks that the cells of `rule` hold each digit once: their sum is 45
    /// and no value repeats.
    pub fn is_valid_on_rule(&self, rule: &House) -> (r: bool)
        requires
            self.wf(),
            forall|k: int| 0 <= k < 9 ==> #[trigger] rule@[k] < N_CELLS,
        ensures
            r == self.rule_valid(rule@),
    {
        let ghost vals = self.rule_digits(rule@);
        assert(in_range(vals, 9)) by {
            assert forall|j: int| 0 <= j < 9 implies 1 <= #[trigger] vals[j] <= 9 by {
                assert(rule@[j] < N_CELLS);
            }
        }
        proof {
            lemma_all_digits_iff_distinct(vals);
        }
        let mut sum: u32 = 0;
        let mut k: usize = 0;
        while k < 9
            invariant
                k <= 9,
                forall|j: int| 0 <= j < 9 ==> #[trigger] rule@[j] < N_CELLS,
                vals == self.rule_digits(rule@),
                sum == seq_sum(vals.take(k as int)),
                sum <= 255 * k,
            decreases 9 - k,
        {
            assert(vals.take(k + 1).drop_last() =~= vals.take(k as int));
            sum = sum + self.data[rule[k]] as u32;
            k = k + 1;
        }
        assert(vals.take(9) =~= vals);
        if sum != 45 {
            return false;
        }
        let mut seen: HashSet<u8> = HashSet::with_capacity(9);
        let mut k: usize = 0;
        while k < 9
            invariant
                k <= 9,
                forall|j: int| 0 <= j < 9 ==> #[trigger] rule@[j] < N_CELLS,
                vals == self.rule_digits(rule@),
                all_digits(vals) <==> vals.no_duplicates(),
                forall|d: u8| #[trigger] seen@.contains(d) <==> exists|j: int| 0 <= j < k && vals[j] == d,
                forall|a: int, b: int| 0 <= a < b < k ==> vals[a] != vals[b],
            decreases 9 - k,
        {
            let v = self.data[rule[k]];
            assert(v == vals[k as int]);
            if !seen.insert(v) {
                let ghost j = choose|j: int| 0 <= j < k && vals[j] == v;
                assert(!vals.no_duplicates()) by {
                    assert(vals[j] == vals[k as int]);
                }
                return false;
            }
            k = k + 1;
        }
        assert(vals.no_duplicates()) by {
            assert forall|a: int, b: int| 0 <= a < 9 && 0 <= b < 9 && a != b implies vals[a] != vals[b] by {
                if a > b {
                    assert(vals[b] != vals[a]);
                }
            }
        }
        true
    }

    /// Maps each value present in `rule` to the positions of `rule` that hold it,
    /// in the order of `rule`.
    pub fn get_distr(&self, rule: &House) -> (r: HashMap<u8, Vec<usize>>)
        requires
            forall|k: int| 0 <= k < 9 ==> #[trigger] rule@[k] < N_CELLS,
        ensures
            forall|v: u8| #[trigger] r@.contains_key(v) <==> self.rule_digits(rule@).contains(v),
            forall|v: u8| #[trigger] r@.contains_key(v) ==> r@[v]@ == positions_with(self.data@, rule@, v),
    {
        let ghost vals = self.rule_digits(rule@);
        let mut distr: HashMap<u8, Vec<usize>> = HashMap::with_capacity(9);
        let mut k: usize = 0;
        while k < 9
            invariant
                k <= 9,
                forall|j: int| 0 <= j < 9 ==> #[trigger] rule@[j] < N_CELLS,
                vals == self.rule_digits(rule@),
                forall|v: u8| #[trigger] distr@.contains_key(v) <==> exists|j: int| 0 <= j < k && vals[j] == v,
                forall|v: u8| #[trigger] distr@.contains_key(v) ==> distr@[v]@ == positions_with(self.data@, rule@.take(k as int), v),
                forall|v: u8| !(#[trigger] distr@.contains_key(v)) ==> positions_with(self.data@, rule@.take(k as int), v) == Seq::<usize>::empty(),
            decreases 9 - k,
        {
            let pos = rule[k];
            let num = self.data[pos];
            assert(num == vals[k as int]);
            let ghost before = distr@;
            let mut list = match distr.remove(&num) {
                Some(list) => list,
                None => Vec::with_capacity(2),
            };
            assert(list@ == positions_with(self.data@, rule@.take(k as int), num));
            list.push(pos);
            distr.insert(num, list);
            assert(rule@.take(k + 1).drop_last() =~= rule@.take(k as int));
            assert forall|v: u8| #[trigger] distr@.contains_key(v) <==> exists|j: int| 0 <= j < k + 1 && vals[j] == v by {
                if v != num && before.contains_key(v) {
                    let j = choose|j: int| 0 <= j < k && vals[j] == v;
                    assert(0 <= j < k + 1 && vals[j] == v);
                }
            }
            assert(rule@.take(k + 1).last() == pos);
            assert forall|v: u8| v != num implies #[trigger] positions_with(self.data@, rule@.take(k + 1), v)
                == positions_with(self.data@, rule@.take(k as int), v) by {}
            k = k + 1;
        }
        assert(rule@.take(9) =~= rule@);
        assert forall|v: u8| #[trigger] distr@.contains_key(v) <==> vals.contains(v) by {
            if vals.contains(v) {
                let j = choose|j: int| 0 <= j < 9 && vals[j] == v;
            }
        }
        distr
    }
}

} // verus!

//! When two cells exchange values on a solved board, and no other exchange of two
//! cells repairs it, the locator names exactly those two cells.
use vstd::prelude::*;

use crate::digits::{in_range, lemma_all_digits_iff_distinct};
use crate::filledboard::FilledBoard;
use crate::positions::{
    block_of, col_of, house_cell, house_seq, lemma_house_cell_bounds,
    lemma_house_members_distinct, row_of,
};
use crate::swap::{is_first_conflict, occurrences, SwapError};

verus! {

broadcast use vstd::array::group_array_axioms;

/// Cell `p` is a member of house `h`.
pub open spec fn in_house(h: int, p: int) -> bool {
    exists|a: int| 0 <= a < 9 && house_cell(h, a) == p
}

/// The three houses of cell `p`: its row, its column and its block.
pub open spec fn houses_of(p: int) -> Seq<int> {
    seq![row_of(p), 9 + col_of(p), 18 + block_of(p)]
}

pub open spec fn sum_to(f: spec_fn(int) -> nat, n: int) -> nat
    decreases n,
{
    if n <= 0 {
        0
    } else {
        sum_to(f, n - 1) + f(n - 1)
    }
}

/// How many entries of `t` equal `h`.
pub open spec fn marks(t: Seq<int>, h: int) -> nat
    decreases t.len(),
{
    if t.len() == 0 {
        0
    } else {
        marks(t.drop_last(), h) + if t.last() == h {
            1nat
        } else {
            0nat
        }
    }
}

proof fn lemma_sum_le(f: spec_fn(int) -> nat, g: spec_fn(int) -> nat, n: int)
    requires
        forall|h: int| 0 <= h < n ==> #[trigger] f(h) <= g(h),
    ensures
        sum_to(f, n) <= sum_to(g, n),
    decreases n,
{
    if n > 0 {
        lemma_sum_le(f, g, n - 1);
    }
}

proof fn lemma_sum_marks(t: Seq<int>, n: int)
    requires
        0 <= n,
        forall|k: int| 0 <= k < t.len() ==> 0 <= #[trigger] t[k] < n,
    ensures
        sum_to(|h: int| marks(t, h), n) == t.len(),
    decreases t.len(),
{
    if t.len() > 0 {
        let u = t.drop_last();
        lemma_sum_marks(u, n);
        lemma_sum_split(u, t.last(), n);
        assert(u.push(t.last()) =~= t);
        assert((|h: int| marks(t, h)) =~= (|h: int| marks(u.push(t.last()), h)));
    } else {
        lemma_sum_zero(|h: int| marks(t, h), n);
    }
}

proof fn lemma_sum_zero(f: spec_fn(int) -> nat, n: int)
    requires
        forall|h: int| 0 <= h < n ==> #[trigger] f(h) == 0,
    ensures
        sum_to(f, n) == 0,
    decreases n,
{
    if n > 0 {
        lemma_sum_zero(f, n - 1);
    }
}

proof fn lemma_sum_split(u: Seq<int>, x: int, n: int)
    requires
        0 <= n,
    ensures
        sum_to(|h: int| marks(u.push(x), h), n) == sum_to(|h: int| marks(u, h), n) + if 0 <= x < n {
            1nat
        } else {
            0nat
        },
    decreases n,
{
    if n > 0 {
        lemma_sum_split(u, x, n - 1);
        assert(u.push(x).drop_last() =~= u);
    }
}

/// The houses that hold a cell are exactly its row, column and block.
pub proof fn lemma_in_house(h: int, p: int)
    requires
        0 <= h < 27,
        0 <= p < 81,
    ensures
        in_house(h, p) <==> (h == row_of(p) || h == 9 + col_of(p) || h == 18 + block_of(p)),
{
    if in_house(h, p) {
        let a = choose|a: int| 0 <= a < 9 && house_cell(h, a) == p;
        if h < 9 {
        } else if h < 18 {
        } else {
            let b = h - 18;
            let bq = b / 3;
            let bm = b % 3;
            let aq = a / 3;
            let am = a % 3;
            assert(b == 3 * bq + bm && a == 3 * aq + am);
            assert(p == 27 * bq + (3 * bm + 9 * aq + am));
            assert(p / 27 == bq) by (nonlinear_arith)
                requires
                    p == 27 * bq + (3 * bm + 9 * aq + am),
                    0 <= 3 * bm + 9 * aq + am < 27,
            ;
            assert(p == 9 * (3 * bq + aq) + (3 * bm + am));
            assert(p % 9 == 3 * bm + am) by (nonlinear_arith)
                requires
                    p == 9 * (3 * bq + aq) + (3 * bm + am),
                    0 <= 3 * bm + am < 9,
            ;
            assert(h == 18 + block_of(p));
        }
    }
    if h == row_of(p) || h == 9 + col_of(p) || h == 18 + block_of(p) {
        if h == row_of(p) {
            assert(house_cell(h, col_of(p)) == p);
        } else if h == 9 + col_of(p) {
            assert(house_cell(h, row_of(p)) == p);
        } else {
            let r = p / 9;
            let c = p % 9;
            let a = 3 * (r % 3) + c % 3;
            assert(house_cell(18 + block_of(p), a) == p) by {
                lemma_block_member(p);
            }
        }
    }
}

proof fn lemma_block_member(p: int)
    requires
        0 <= p < 81,
    ensures
        house_cell(18 + block_of(p), 3 * ((p / 9) % 3) + (p % 9) % 3) == p,
        0 <= 3 * ((p / 9) % 3) + (p % 9) % 3 < 9,
{
    let r = p / 9;
    let c = p % 9;
    let rq = r / 3;
    let rm = r % 3;
    let cq = c / 3;
    let cm = c % 3;
    assert(r == 3 * rq + rm && c == 3 * cq + cm);
    assert(p == 27 * rq + (9 * rm + c));
    assert(p / 27 == rq) by (nonlinear_arith)
        requires
            p == 27 * rq + (9 * rm + c),
            0 <= 9 * rm + c < 27,
    ;
    let b = 3 * rq + cq;
    assert(b / 3 == rq && b % 3 == cq);
    let a = 3 * rm + cm;
    assert(a / 3 == rm && a % 3 == cm);
}

/// `d` is `s` with the values of cells `i` and `j` exchanged.
pub open spec fn exchanged(s: FilledBoard, d: FilledBoard, i: int, j: int) -> bool {
    forall|p: int|
        0 <= p < 81 ==> #[trigger] d.data@[p] == if p == i {
            s.data@[j]
        } else if p == j {
            s.data@[i]
        } else {
            s.data@[p]
        }
}

/// Cells `i` and `j` of the solved board `s` are distinct and hold different digits.
pub open spec fn pair_on_solved(s: FilledBoard, i: int, j: int) -> bool {
    &&& s.wf()
    &&& s.solved()
    &&& 0 <= i < 81
    &&& 0 <= j < 81
    &&& i != j
    &&& s.data@[i] != s.data@[j]
}

/// What house `h` adds to the vote for position `p`.
pub open spec fn vote_share(d: FilledBoard, h: int, p: usize) -> nat {
    if d.rule_valid(house_seq(h)) {
        0
    } else {
        let c = d.conflict(house_seq(h));
        (if c.0 == p {
            1nat
        } else {
            0nat
        }) + (if c.1 == p {
            1nat
        } else {
            0nat
        })
    }
}

/// 1 when house `h` is broken.
pub open spec fn broken_mark(d: FilledBoard, h: int) -> nat {
    if d.rule_valid(house_seq(h)) {
        0
    } else {
        1
    }
}

/// The houses that cells `i` and `p` have in common.
pub open spec fn common(i: int, p: int) -> Seq<int> {
    (if row_of(p) == row_of(i) {
        seq![row_of(i)]
    } else {
        Seq::empty()
    }) + (if col_of(p) == col_of(i) {
        seq![9 + col_of(i)]
    } else {
        Seq::empty()
    }) + (if block_of(p) == block_of(i) {
        seq![18 + block_of(i)]
    } else {
        Seq::empty()
    })
}

proof fn lemma_marks_concat(t1: Seq<int>, t2: Seq<int>, h: int)
    ensures
        marks(t1 + t2, h) == marks(t1, h) + marks(t2, h),
    decreases t2.len(),
{
    if t2.len() == 0 {
        assert(t1 + t2 =~= t1);
    } else {
        lemma_marks_concat(t1, t2.drop_last(), h);
        assert((t1 + t2).drop_last() =~= t1 + t2.drop_last());
    }
}

proof fn lemma_marks1(a: int, h: int)
    ensures
        marks(seq![a], h) == if a == h {
            1nat
        } else {
            0nat
        },
{
    assert(seq![a].drop_last() =~= Seq::<int>::empty());
    assert(seq![a].last() == a);
    assert(marks(Seq::<int>::empty(), h) == 0);
    assert(marks(seq![a], h) == marks(seq![a].drop_last(), h) + if seq![a].last() == h {
        1nat
    } else {
        0nat
    });
}

proof fn lemma_marks3(a: int, b: int, c: int, h: int)
    ensures
        marks(seq![a, b, c], h) == (if a == h {
            1nat
        } else {
            0nat
        }) + (if b == h {
            1nat
        } else {
            0nat
        }) + (if c == h {
            1nat
        } else {
            0nat
        }),
{
    assert(seq![a, b, c] =~= seq![a] + seq![b] + seq![c]);
    lemma_marks_concat(seq![a] + seq![b], seq![c], h);
    lemma_marks_concat(seq![a], seq![b], h);
    lemma_marks1(a, h);
    lemma_marks1(b, h);
    lemma_marks1(c, h);
}

/// A cell's row, column and block are three different houses in `0..27`.
proof fn lemma_houses_of(p: int)
    requires
        0 <= p < 81,
    ensures
        0 <= row_of(p) < 9,
        9 <= 9 + col_of(p) < 18,
        18 <= 18 + block_of(p) < 27,
{
    lemma_block_member(p);
}

/// A house that holds neither exchanged cell stays valid.
proof fn lemma_untouched_house(s: FilledBoard, d: FilledBoard, i: int, j: int, h: int)
    requires
        pair_on_solved(s, i, j),
        exchanged(s, d, i, j),
        0 <= h < 27,
        !in_house(h, i),
        !in_house(h, j),
    ensures
        d.rule_valid(house_seq(h)),
{
    let hs = house_seq(h);
    assert(s.rule_valid(hs));
    assert forall|k: int| 0 <= k < 9 implies #[trigger] d.rule_digits(hs)[k] == s.rule_digits(hs)[k] by {
        lemma_house_cell_bounds(h, k);
        assert(house_cell(h, k) != i && house_cell(h, k) != j);
    }
    assert(d.rule_digits(hs) =~= s.rule_digits(hs));
}

/// Some first collision exists in a sequence with a repeated value.
proof fn lemma_first_conflict_exists(vals: Seq<u8>, x: int, y: int)
    requires
        0 <= x < y < vals.len(),
        vals[x] == vals[y],
    ensures
        exists|a: int, b: int| is_first_conflict(vals, a, b),
    decreases y,
{
    if exists|x2: int, y2: int| 0 <= x2 < y2 < y && vals[x2] == vals[y2] {
        let (x2, y2) = choose|x2: int, y2: int| 0 <= x2 < y2 < y && vals[x2] == vals[y2];
        lemma_first_conflict_exists(vals, x2, y2);
    } else {
        assert(is_first_conflict(vals, x, y)) by {
            assert forall|x2: int| 0 <= x2 < x implies vals[x2] != vals[y] by {
                if vals[x2] == vals[y] {
                    assert(vals[x2] == vals[x]);
                }
            }
        }
    }
}

/// A house that holds the exchanged cell `i` but not `j` is broken, and its
/// first collision pairs `i` with the house's cell that held `j`'s digit.
proof fn lemma_broken_house(s: FilledBoard, d: FilledBoard, i: int, j: int, h: int)
    requires
        pair_on_solved(s, i, j),
        exchanged(s, d, i, j),
        0 <= h < 27,
        in_house(h, i),
        !in_house(h, j),
    ensures
        !d.rule_valid(house_seq(h)),
        ({
            let c = d.conflict(house_seq(h));
            ||| c.0 == i && c.1 != i && in_house(h, c.1 as int) && s.data@[c.1 as int] == s.data@[j]
            ||| c.1 == i && c.0 != i && in_house(h, c.0 as int) && s.data@[c.0 as int] == s.data@[j]
        }),
{
    let hs = house_seq(h);
    let sv = s.rule_digits(hs);
    let dv = d.rule_digits(hs);
    let ai = choose|a: int| 0 <= a < 9 && house_cell(h, a) == i;
    assert forall|k: int| 0 <= k < 9 && k != ai implies #[trigger] dv[k] == sv[k] && hs[k] != i by {
        lemma_house_cell_bounds(h, k);
        lemma_house_members_distinct(h, k, ai);
        if house_cell(h, k) == j {
            assert(in_house(h, j));
        }
    }
    assert(dv[ai] == s.data@[j]);
    assert(in_range(sv, 9)) by {
        assert forall|k: int| 0 <= k < 9 implies 1 <= #[trigger] sv[k] <= 9 by {
            lemma_house_cell_bounds(h, k);
        }
    }
    assert(in_range(dv, 9)) by {
        assert forall|k: int| 0 <= k < 9 implies 1 <= #[trigger] dv[k] <= 9 by {
            lemma_house_cell_bounds(h, k);
        }
    }
    assert(s.rule_valid(hs));
    lemma_all_digits_iff_distinct(sv);
    lemma_all_digits_iff_distinct(dv);
    let vj = s.data@[j];
    assert(sv.contains(vj));
    let aq = choose|k: int| 0 <= k < 9 && sv[k] == vj;
    assert(aq != ai);
    assert(dv[aq] == dv[ai]);
    assert(!dv.no_duplicates());
    if ai < aq {
        lemma_first_conflict_exists(dv, ai, aq);
    } else {
        lemma_first_conflict_exists(dv, aq, ai);
    }
    let (a, b) = choose|a: int, b: int| is_first_conflict(dv, a, b);
    assert(is_first_conflict(dv, a, b));
    if a != ai && b != ai {
        assert(sv[a] == sv[b]);
    }
    assert(hs[ai] == i);
    if a == ai {
        assert(in_house(h, hs[b] as int)) by {
            lemma_house_cell_bounds(h, b);
        }
    } else {
        assert(in_house(h, hs[a] as int)) by {
            lemma_house_cell_bounds(h, a);
        }
    }
}

/// Two distinct cells have at most two houses in common.
proof fn lemma_common_len(i: int, p: int)
    requires
        0 <= i < 81,
        0 <= p < 81,
        i != p,
    ensures
        common(i, p).len() <= 2,
        forall|k: int| 0 <= k < common(i, p).len() ==> 0 <= #[trigger] common(i, p)[k] < 27,
{
    lemma_houses_of(i);
    assert(i == 9 * row_of(i) + col_of(i));
    assert(p == 9 * row_of(p) + col_of(p));
}

proof fn lemma_occurrences_push2(l: Seq<usize>, a: usize, b: usize, p: usize)
    ensures
        occurrences(l.push(a).push(b), p) == occurrences(l, p) + (if a == p {
            1nat
        } else {
            0nat
        }) + (if b == p {
            1nat
        } else {
            0nat
        }),
{
    assert(l.push(a).push(b).drop_last() =~= l.push(a));
    assert(l.push(a).drop_last() =~= l);
    assert(occurrences(l.push(a), p) == occurrences(l, p) + if a == p {
        1nat
    } else {
        0nat
    });
    assert(occurrences(l.push(a).push(b), p) == occurrences(l.push(a), p) + if b == p {
        1nat
    } else {
        0nat
    });
}

/// The vote for `p` sums what each house adds.
proof fn lemma_votes_sum(d: FilledBoard, n: int, p: usize)
    requires
        0 <= n <= 27,
    ensures
        occurrences(d.conflict_list(d.broken_upto(n)), p) == sum_to(|h: int| vote_share(d, h, p), n),
        d.broken_upto(n).len() == sum_to(|h: int| broken_mark(d, h), n),
    decreases n,
{
    if n > 0 {
        lemma_votes_sum(d, n - 1, p);
        let prev = d.broken_upto(n - 1);
        if !d.rule_valid(house_seq(n - 1)) {
            let c = d.conflict(house_seq(n - 1));
            assert(prev.push((n - 1) as usize).drop_last() =~= prev);
            lemma_occurrences_push2(d.conflict_list(prev), c.0, c.1, p);
        }
    }
}

proof fn lemma_occurrences_positive(l: Seq<usize>, p: usize)
    requires
        occurrences(l, p) > 0,
    ensures
        exists|k: int| 0 <= k < l.len() && l[k] == p,
    decreases l.len(),
{
    if l.last() != p {
        lemma_occurrences_positive(l.drop_last(), p);
        let k = choose|k: int| 0 <= k < l.drop_last().len() && l.drop_last()[k] == p;
        assert(l[k] == p);
    } else {
        assert(l[l.len() - 1] == p);
    }
}

/// A house that holds both exchanged cells keeps its digits, and stays valid.
proof fn lemma_shared_house(s: FilledBoard, d: FilledBoard, i: int, j: int, h: int)
    requires
        pair_on_solved(s, i, j),
        exchanged(s, d, i, j),
        0 <= h < 27,
        in_house(h, i),
        in_house(h, j),
    ensures
        d.rule_valid(house_seq(h)),
{
    let hs = house_seq(h);
    let sv = s.rule_digits(hs);
    let dv = d.rule_digits(hs);
    let ai = choose|a: int| 0 <= a < 9 && house_cell(h, a) == i;
    let aj = choose|a: int| 0 <= a < 9 && house_cell(h, a) == j;
    assert(s.rule_valid(hs));
    assert forall|v: u8| 1 <= v <= 9 implies #[trigger] dv.contains(v) by {
        assert(sv.contains(v));
        let k = choose|k: int| 0 <= k < 9 && sv[k] == v;
        lemma_house_cell_bounds(h, k);
        if k == ai {
            assert(dv[aj] == v);
        } else if k == aj {
            assert(dv[ai] == v);
        } else {
            lemma_house_members_distinct(h, k, ai);
            lemma_house_members_distinct(h, k, aj);
            assert(dv[k] == v);
        }
    }
}

/// A house is broken exactly when it holds one of the exchanged cells and not the other.
proof fn lemma_broken_iff(s: FilledBoard, d: FilledBoard, i: int, j: int, h: int)
    requires
        pair_on_solved(s, i, j),
        exchanged(s, d, i, j),
        0 <= h < 27,
    ensures
        broken_mark(d, h) + 2 * marks(common(i, j), h) == marks(houses_of(i) + houses_of(j), h),
{
    assert(pair_on_solved(s, j, i));
    assert(exchanged(s, d, j, i));
    lemma_in_house(h, i);
    lemma_in_house(h, j);
    lemma_houses_of(i);
    lemma_houses_of(j);
    lemma_marks_concat(houses_of(i), houses_of(j), h);
    lemma_marks3(row_of(i), 9 + col_of(i), 18 + block_of(i), h);
    lemma_marks3(row_of(j), 9 + col_of(j), 18 + block_of(j), h);
    let r: Seq<int> = if row_of(j) == row_of(i) {
        seq![row_of(i)]
    } else {
        Seq::empty()
    };
    let c: Seq<int> = if col_of(j) == col_of(i) {
        seq![9 + col_of(i)]
    } else {
        Seq::empty()
    };
    let b: Seq<int> = if block_of(j) == block_of(i) {
        seq![18 + block_of(i)]
    } else {
        Seq::empty()
    };
    lemma_marks_concat(r + c, b, h);
    lemma_marks_concat(r, c, h);
    lemma_marks1(row_of(i), h);
    lemma_marks1(9 + col_of(i), h);
    lemma_marks1(18 + block_of(i), h);
    if in_house(h, i) && in_house(h, j) {
        lemma_shared_house(s, d, i, j, h);
    } else if in_house(h, i) {
        lemma_broken_house(s, d, i, j, h);
    } else if in_house(h, j) {
        lemma_broken_house(s, d, j, i, h);
    } else {
        lemma_untouched_house(s, d, i, j, h);
    }
}

proof fn lemma_sum_lin(f: spec_fn(int) -> nat, g: spec_fn(int) -> nat, k: spec_fn(int) -> nat, n: int)
    requires
        forall|h: int| 0 <= h < n ==> #[trigger] k(h) == f(h) + 2 * g(h),
    ensures
        sum_to(k, n) == sum_to(f, n) + 2 * sum_to(g, n),
    decreases n,
{
    if n > 0 {
        lemma_sum_lin(f, g, k, n - 1);
    }
}

proof fn lemma_sum_term(f: spec_fn(int) -> nat, n: int, h: int)
    requires
        0 <= h < n,
    ensures
        sum_to(f, n) >= f(h),
    decreases n,
{
    if h < n - 1 {
        lemma_sum_term(f, n - 1, h);
    }
}

/// Exchanging two cells that share `k` houses breaks `6 - 2k` houses: 2, 4 or 6.
proof fn lemma_broken_count(s: FilledBoard, d: FilledBoard, i: int, j: int)
    requires
        pair_on_solved(s, i, j),
        exchanged(s, d, i, j),
    ensures
        d.broken_houses().len() == 2 || d.broken_houses().len() == 4 || d.broken_houses().len() == 6,
{
    lemma_votes_sum(d, 27, 0);
    lemma_houses_of(i);
    lemma_houses_of(j);
    lemma_common_len(i, j);
    let t = houses_of(i) + houses_of(j);
    assert forall|h: int| 0 <= h < 27 implies #[trigger] marks(t, h) == broken_mark(d, h) + 2 * marks(
        common(i, j),
        h,
    ) by {
        lemma_broken_iff(s, d, i, j, h);
    }
    lemma_sum_lin(|h: int| broken_mark(d, h), |h: int| marks(common(i, j), h), |h: int| marks(t, h), 27);
    assert forall|k: int| 0 <= k < t.len() implies 0 <= #[trigger] t[k] < 27 by {}
    lemma_sum_marks(t, 27);
    lemma_sum_marks(common(i, j), 27);
}

/// The exchanged cell `i` is one side of some house's conflict.
proof fn lemma_in_conflicts(s: FilledBoard, d: FilledBoard, i: int, j: int)
    requires
        pair_on_solved(s, i, j),
        exchanged(s, d, i, j),
    ensures
        d.conflict_list(d.broken_houses()).contains(i as usize),
{
    lemma_houses_of(i);
    lemma_houses_of(j);
    lemma_common_len(i, j);
    let h0 = if row_of(i) != row_of(j) {
        row_of(i)
    } else if col_of(i) != col_of(j) {
        9 + col_of(i)
    } else {
        18 + block_of(i)
    };
    if row_of(i) == row_of(j) && col_of(i) == col_of(j) {
        assert(i == 9 * row_of(i) + col_of(i));
        assert(j == 9 * row_of(j) + col_of(j));
    }
    lemma_in_house(h0, i);
    lemma_in_house(h0, j);
    lemma_broken_house(s, d, i, j, h0);
    lemma_votes_sum(d, 27, i as usize);
    lemma_sum_term(|h: int| vote_share(d, h, i as usize), 27, h0);
    lemma_occurrences_positive(d.conflict_list(d.broken_houses()), i as usize);
}

/// On a solved board, exchange the digits of two cells `i < j`, whether they
/// share no house, one or two. When no other exchange of two cells solves the
/// result, the locator returns exactly `(i, j)`.
pub proof fn lemma_locates_exchange(
    s: FilledBoard,
    i: usize,
    j: usize,
    r: Result<(usize, usize), SwapError>,
)
    requires
        s.wf(),
        s.solved(),
        i < j < 81,
        s.data@[i as int] != s.data@[j as int],
        forall|a: usize, b: usize|
            a < b < 81 && (#[trigger] s.swapped(i as int, j as int).swapped(a as int, b as int)).solved()
                ==> a == i && b == j,
        s.swapped(i as int, j as int).swap_result(r),
    ensures
        r == Ok::<(usize, usize), SwapError>((i, j)),
{
    let d = s.swapped(i as int, j as int);
    assert(exchanged(s, d, i as int, j as int));
    assert(exchanged(s, d, j as int, i as int));
    assert(pair_on_solved(s, i as int, j as int));
    assert(pair_on_solved(s, j as int, i as int));
    lemma_broken_count(s, d, i as int, j as int);
    lemma_in_conflicts(s, d, i as int, j as int);
    lemma_in_conflicts(s, d, j as int, i as int);
    let list = d.conflict_list(d.broken_houses());
    assert(d.swapped(i as int, j as int).data@ =~= s.data@);
    assert(d.swapped(i as int, j as int).data == s.data);
    assert(d.swapped(i as int, j as int) == s);
    if r is Err {
        assert(list.contains(i) && list.contains(j));
    }
}

} // verus!

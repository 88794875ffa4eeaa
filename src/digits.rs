//! Facts about nine-cell groups of digits: a group holds every digit from 1 to 9
//! exactly when its values are pairwise distinct and sum to 45.
use vstd::prelude::*;
use vstd::set_lib::*;

verus! {

/// Sum of a sequence of small values.
pub open spec fn seq_sum(s: Seq<u8>) -> int
    decreases s.len(),
{
    if s.len() == 0 {
        0
    } else {
        seq_sum(s.drop_last()) + s.last()
    }
}

/// Every value lies in `1..=n`.
pub open spec fn in_range(s: Seq<u8>, n: int) -> bool {
    forall|k: int| 0 <= k < s.len() ==> 1 <= #[trigger] s[k] <= n
}

/// Every digit of `1..=9` occurs in `s`.
pub open spec fn all_digits(s: Seq<u8>) -> bool {
    forall|d: u8| 1 <= d <= 9 ==> #[trigger] s.contains(d)
}

pub open spec fn digits_upto(n: int) -> Set<u8> {
    Set::new(|d: u8| 1 <= d <= n)
}

proof fn lemma_digits_upto_len(n: int)
    requires
        0 <= n <= 9,
    ensures
        digits_upto(n).finite(),
        digits_upto(n).len() == n,
    decreases n,
{
    if n == 0 {
        assert(digits_upto(0) =~= Set::empty());
    } else {
        lemma_digits_upto_len(n - 1);
        assert(digits_upto(n) =~= digits_upto(n - 1).insert(n as u8));
    }
}

/// Pigeonhole: `n` distinct values drawn from `1..=n` take every value of that range.
proof fn lemma_distinct_covers(s: Seq<u8>, n: int)
    requires
        0 <= n <= 9,
        s.len() == n,
        in_range(s, n),
        s.no_duplicates(),
    ensures
        forall|d: u8| 1 <= d <= n ==> #[trigger] s.contains(d),
{
    let set = s.to_set();
    let range = digits_upto(n);
    lemma_digits_upto_len(n);
    s.unique_seq_to_set();
    assert(set.subset_of(range)) by {
        assert forall|d: u8| #[trigger] set.contains(d) implies range.contains(d) by {
            assert(s.contains(d));
            let k = choose|k: int| 0 <= k < s.len() && s[k] == d;
            assert(1 <= s[k] <= n);
        }
    }
    lemma_subset_equality(set, range);
    assert forall|d: u8| 1 <= d <= n implies #[trigger] s.contains(d) by {
        assert(range.contains(d));
        assert(set.contains(d));
    }
}

proof fn lemma_sum_remove(s: Seq<u8>, k: int)
    requires
        0 <= k < s.len(),
    ensures
        seq_sum(s) == seq_sum(s.remove(k)) + s[k],
    decreases s.len(),
{
    if k == s.len() - 1 {
        assert(s.remove(k) =~= s.drop_last());
    } else {
        lemma_sum_remove(s.drop_last(), k);
        assert(s.remove(k).drop_last() =~= s.drop_last().remove(k));
    }
}

/// `n` distinct values drawn from `1..=n` sum to `n * (n + 1) / 2`.
proof fn lemma_distinct_sum(s: Seq<u8>, n: int)
    requires
        0 <= n <= 9,
        s.len() == n,
        in_range(s, n),
        s.no_duplicates(),
    ensures
        seq_sum(s) == n * (n + 1) / 2,
    decreases n,
{
    if n == 0 {
    } else {
        lemma_distinct_covers(s, n);
        assert(s.contains(n as u8));
        let k = choose|k: int| 0 <= k < s.len() && s[k] == n as u8;
        let t = s.remove(k);
        lemma_sum_remove(s, k);
        assert forall|j: int| 0 <= j < t.len() implies 1 <= #[trigger] t[j] <= n - 1 by {
            if j < k {
                assert(t[j] == s[j]);
            } else {
                assert(t[j] == s[j + 1]);
            }
        }
        assert(t.no_duplicates()) by {
            assert forall|a: int, b: int| 0 <= a < t.len() && 0 <= b < t.len() && a != b
                implies t[a] != t[b] by {
                let sa = if a < k { a } else { a + 1 };
                let sb = if b < k { b } else { b + 1 };
                assert(t[a] == s[sa] && t[b] == s[sb]);
            }
        }
        lemma_distinct_sum(t, n - 1);
        assert(n * (n + 1) / 2 == (n - 1) * n / 2 + n) by (nonlinear_arith)
            requires 1 <= n <= 9;
    }
}

/// A group of nine values in `1..=9` holds every digit exactly when its values
/// are pairwise distinct, and then they sum to 45.
pub proof fn lemma_all_digits_iff_distinct(s: Seq<u8>)
    requires
        s.len() == 9,
        in_range(s, 9),
    ensures
        all_digits(s) <==> s.no_duplicates(),
        all_digits(s) ==> seq_sum(s) == 45,
{
    if s.no_duplicates() {
        lemma_distinct_covers(s, 9);
        lemma_distinct_sum(s, 9);
    }
    if all_digits(s) {
        let set = s.to_set();
        let range = digits_upto(9);
        lemma_digits_upto_len(9);
        assert(range.subset_of(set)) by {
            assert forall|d: u8| #[trigger] range.contains(d) implies set.contains(d) by {
                assert(s.contains(d));
            }
        }
        lemma_len_subset(range, set);
        s.lemma_cardinality_of_set();
        s.lemma_no_dup_set_cardinality();
        lemma_distinct_sum(s, 9);
    }
}

} // verus!

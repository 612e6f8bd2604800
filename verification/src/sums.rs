//! Sums of integer sequences and the facts about them that the money logic uses.
use vstd::prelude::*;

verus! {

/// Sum of the first `k` entries of `s`.
pub open spec fn prefix_sum(s: Seq<i64>, k: int) -> int
    decreases k,
{
    if k <= 0 {
        0
    } else {
        prefix_sum(s, k - 1) + s[k - 1]
    }
}

/// Sum of all entries of `s`.
pub open spec fn total_of(s: Seq<i64>) -> int {
    prefix_sum(s, s.len() as int)
}

pub open spec fn all_nonnegative(s: Seq<i64>) -> bool {
    forall|i: int| 0 <= i < s.len() ==> s[i] >= 0
}

/// Changing one entry changes every prefix sum that covers it by the difference.
pub proof fn lemma_prefix_sum_update(s: Seq<i64>, j: int, x: i64, k: int)
    requires
        0 <= j < s.len(),
        0 <= k <= s.len(),
    ensures
        prefix_sum(s.update(j, x), k) == prefix_sum(s, k) + (if j < k {
            x - s[j]
        } else {
            0
        }),
    decreases k,
{
    if k > 0 {
        lemma_prefix_sum_update(s, j, x, k - 1);
    }
}

/// Prefix sums only depend on the entries they cover.
pub proof fn lemma_prefix_sum_same(s: Seq<i64>, t: Seq<i64>, k: int)
    requires
        0 <= k <= s.len(),
        k <= t.len(),
        forall|i: int| 0 <= i < k ==> s[i] == t[i],
    ensures
        prefix_sum(s, k) == prefix_sum(t, k),
    decreases k,
{
    if k > 0 {
        lemma_prefix_sum_same(s, t, k - 1);
    }
}

/// Over non-negative entries, prefix sums grow with `k` and bound every entry they cover.
pub proof fn lemma_prefix_sum_nonneg(s: Seq<i64>, j: int, k: int)
    requires
        0 <= j <= k <= s.len(),
        forall|i: int| 0 <= i < k ==> s[i] >= 0,
    ensures
        0 <= prefix_sum(s, j) <= prefix_sum(s, k),
        j < k ==> s[j] <= prefix_sum(s, k),
    decreases k,
{
    if k > 0 {
        if j < k {
            lemma_prefix_sum_nonneg(s, j, k - 1);
        } else {
            lemma_prefix_sum_nonneg(s, k - 1, k - 1);
        }
    }
}

} // verus!

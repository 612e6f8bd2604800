//! Deterministic in-place sorting of the remainders the largest remainder
//! method ranks, with the facts about sorted permutations it relies on.
use vstd::prelude::*;
use vstd::relations::*;

verus! {

broadcast use vstd::seq_lib::group_to_multiset_ensures;

/// Remainder ranking: larger remainder first; on a tie, the smaller index first.
pub open spec fn remainder_leq(x: (i128, usize), y: (i128, usize)) -> bool {
    x.0 > y.0 || (x.0 == y.0 && x.1 <= y.1)
}

pub proof fn lemma_remainder_leq_total()
    ensures
        total_ordering(|x: (i128, usize), y: (i128, usize)| remainder_leq(x, y)),
{
}

/// Swapping two positions keeps the multiset of elements.
pub proof fn lemma_swap_multiset<A>(s: Seq<A>, i: int, j: int)
    requires
        0 <= i < s.len(),
        0 <= j < s.len(),
    ensures
        s.update(i, s[j]).update(j, s[i]).to_multiset() =~= s.to_multiset(),
{
    broadcast use vstd::seq_lib::to_multiset_update;
    broadcast use vstd::multiset::group_multiset_axioms;

    let s1 = s.update(i, s[j]);
    assert(s1.to_multiset() == s.to_multiset().insert(s[j]).remove(s[i]));
    assert(s1[j] == if i == j { s[j] } else { s[j] });
    let s2 = s1.update(j, s[i]);
    assert(s2.to_multiset() == s1.to_multiset().insert(s[i]).remove(s1[j]));
    assert(s2.to_multiset() =~= s.to_multiset());
}

/// Sorts remainder entries so that larger remainders come first and ties go
/// to the smaller index.
pub fn sort_remainders(v: &mut Vec<(i128, usize)>)
    ensures
        final(v)@.to_multiset() == old(v)@.to_multiset(),
        forall|a: int, b: int|
            0 <= a < b < final(v)@.len() ==> #[trigger] remainder_leq(final(v)@[a], final(v)@[b]),
        final(v)@.len() == old(v)@.len(),
{
    let n = v.len();
    let ghost orig = v@;
    let mut i: usize = 0;
    while i < n
        invariant
            v@.len() == n,
            v@.to_multiset() == orig.to_multiset(),
            i <= n,
            forall|a: int, b: int| 0 <= a < b < i ==> remainder_leq(#[trigger] v@[a], #[trigger] v@[b]),
            forall|a: int, b: int|
                0 <= a < i <= b < n ==> remainder_leq(#[trigger] v@[a], #[trigger] v@[b]),
        decreases n - i,
    {
        let mut best: usize = i;
        let mut j: usize = i + 1;
        while j < n
            invariant
                v@.len() == n,
                i < n,
                i <= best < n,
                best < j <= n,
                forall|k: int| i <= k < j ==> remainder_leq(v@[best as int], #[trigger] v@[k]),
            decreases n - j,
        {
            let cand = v[j];
            let cur = v[best];
            if cand.0 > cur.0 || (cand.0 == cur.0 && cand.1 < cur.1) {
                best = j;
            }
            j = j + 1;
        }
        let x = v[i];
        let y = v[best];
        proof {
            lemma_swap_multiset(v@, i as int, best as int);
        }
        let ghost before = v@;
        v.set(i, y);
        v.set(best, x);
        assert(v@ == before.update(i as int, before[best as int]).update(
            best as int,
            before[i as int],
        ));
        i = i + 1;
    }
    proof {
        assert forall|a: int, b: int| 0 <= a < b < v@.len() implies #[trigger] remainder_leq(
            v@[a],
            v@[b],
        ) by {}
    }
}

} // verus!

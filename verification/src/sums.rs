//! Weighted sums over sequences, and how such sums behave under
//! concatenation, element removal, and reordering.
//!
//! Every aggregate this crate computes (a per-label record count, a
//! per-label byte total, a whole-table total) is a weighted sum of a
//! sequence, so the lemmas here carry the main laws: totals are preserved
//! by splitting a sequence, and by any reordering of it.

use vstd::prelude::*;

verus! {

use vstd::seq_lib::group_to_multiset_ensures;

/// The sum of `f` over all elements of `s`.
pub open spec fn sum_by<A>(s: Seq<A>, f: spec_fn(A) -> nat) -> nat
    decreases s.len(),
{
    if s.len() == 0 {
        0
    } else {
        sum_by(s.drop_last(), f) + f(s.last())
    }
}

/// A weighted sum distributes over concatenation.
pub proof fn lemma_sum_by_concat<A>(a: Seq<A>, b: Seq<A>, f: spec_fn(A) -> nat)
    ensures
        sum_by(a + b, f) == sum_by(a, f) + sum_by(b, f),
    decreases b.len(),
{
    if b.len() == 0 {
        assert(a + b =~= a);
    } else {
        assert((a + b).drop_last() =~= a + b.drop_last());
        assert((a + b).last() == b.last());
        lemma_sum_by_concat(a, b.drop_last(), f);
    }
}

/// Removing one element takes exactly its weight out of the sum.
pub proof fn lemma_sum_by_remove<A>(s: Seq<A>, i: int, f: spec_fn(A) -> nat)
    requires
        0 <= i < s.len(),
    ensures
        sum_by(s, f) == sum_by(s.remove(i), f) + f(s[i]),
{
    let a = s.subrange(0, i);
    let b = s.subrange(i + 1, s.len() as int);
    let mid = seq![s[i]];
    assert(s =~= a + mid + b);
    assert(s.remove(i) =~= a + b);
    assert(mid.drop_last() =~= Seq::<A>::empty());
    assert(sum_by(Seq::<A>::empty(), f) == 0);
    assert(sum_by(mid, f) == f(s[i]));
    lemma_sum_by_concat(a + mid, b, f);
    lemma_sum_by_concat(a, mid, f);
    lemma_sum_by_concat(a, b, f);
}

/// Reordering a sequence does not change a weighted sum: two sequences with
/// the same multiset of elements have the same sum under every weight.
pub proof fn lemma_sum_by_permutation<A>(s1: Seq<A>, s2: Seq<A>, f: spec_fn(A) -> nat)
    requires
        s1.to_multiset() == s2.to_multiset(),
    ensures
        sum_by(s1, f) == sum_by(s2, f),
    decreases s1.len(),
{
    broadcast use group_to_multiset_ensures;

    s1.to_multiset_ensures();
    s2.to_multiset_ensures();
    if s1.len() == 0 {
        assert(s1.to_multiset().len() == s2.to_multiset().len());
        assert(s2.len() == 0);
    } else {
        let last = s1.len() - 1;
        let x = s1[last];
        assert(s1.contains(x));
        assert(s2.to_multiset().count(x) > 0);
        assert(s2.contains(x));
        let j = choose|j: int| 0 <= j < s2.len() && s2[j] == x;
        assert(s1.remove(last).to_multiset() =~= s1.to_multiset().remove(x));
        assert(s2.remove(j).to_multiset() =~= s2.to_multiset().remove(x));
        lemma_sum_by_permutation(s1.remove(last), s2.remove(j), f);
        lemma_sum_by_remove(s1, last, f);
        lemma_sum_by_remove(s2, j, f);
    }
}

} // verus!

//! Facts about sequences, sets and multisets that the proofs of the other
//! modules share.

use vstd::multiset::Multiset;
use vstd::prelude::*;
use vstd::seq_lib::{seq_to_set_is_finite, to_multiset_contains};
use vstd::set_lib::{lemma_int_range, lemma_len_subset, lemma_subset_equality, set_int_range};

verus! {

/// An empty sequence has no entries.
pub(crate) proof fn lemma_nothing_in_no_slots<T>(s: Seq<T>)
    requires
        s.len() == 0,
    ensures
        s.to_multiset() == Multiset::<T>::empty(),
{
    broadcast use vstd::multiset::group_multiset_axioms;

    assert forall|e: T| s.to_multiset().count(e) == 0 by {
        to_multiset_contains(s, e);
    }
    assert(s.to_multiset() =~= Multiset::<T>::empty());
}

/// Nothing passes a filter on the empty sequence.
pub(crate) proof fn lemma_filter_of_empty<A>(pred: spec_fn(A) -> bool)
    ensures
        Seq::<A>::empty().filter(pred) == Seq::<A>::empty(),
{
    reveal(Seq::filter);
}

/// What passes a filter is what was there and meets the predicate.
pub(crate) proof fn lemma_filter_membership<A>(s: Seq<A>, p: spec_fn(A) -> bool, x: A)
    ensures
        s.filter(p).contains(x) <==> s.contains(x) && p(x),
{
    if s.filter(p).contains(x) {
        s.lemma_filter_contains_rev(p, x);
        let j = choose|j: int| 0 <= j < s.filter(p).len() && s.filter(p)[j] == x;
        s.lemma_filter_pred(p, j);
    }
    if s.contains(x) && p(x) {
        let k = choose|k: int| 0 <= k < s.len() && s[k] == x;
        s.lemma_filter_contains(p, k);
    }
}

/// What passes a filter on distinct things is distinct.
pub(crate) proof fn lemma_filter_keeps_distinct<A>(s: Seq<A>, p: spec_fn(A) -> bool)
    requires
        s.no_duplicates(),
    ensures
        s.filter(p).no_duplicates(),
    decreases s.len(),
{
    reveal(Seq::filter);
    if s.len() > 0 {
        let head = s.drop_last();
        lemma_filter_keeps_distinct(head, p);
        if p(s.last()) {
            lemma_filter_membership(head, p, s.last());
            assert(!head.contains(s.last())) by {
                if head.contains(s.last()) {
                    let k = choose|k: int| 0 <= k < head.len() && head[k] == s.last();
                    assert(s[k] == s[s.len() - 1]);
                }
            }
            let kept = head.filter(p);
            assert forall|i: int, j: int|
                0 <= i < kept.len() + 1 && 0 <= j < kept.len() + 1 && i != j implies kept.push(
                s.last(),
            )[i] != kept.push(s.last())[j] by {
                if i < kept.len() && j == kept.len() {
                    assert(kept.contains(kept[i]));
                }
                if j < kept.len() && i == kept.len() {
                    assert(kept.contains(kept[j]));
                }
            }
        }
    }
}

/// A sequence of distinct items below `n` is at most `n` long, and one that
/// is `n` long holds every item below `n`.
pub(crate) proof fn lemma_distinct_items(s: Seq<usize>, n: nat)
    requires
        s.no_duplicates(),
        forall|k: int| 0 <= k < s.len() ==> #[trigger] s[k] < n,
    ensures
        s.len() <= n,
        s.len() == n ==> forall|i: usize| i < n ==> s.contains(i),
{
    let t = s.map_values(|x: usize| x as int);
    let range = set_int_range(0, n as int);
    assert(t.no_duplicates());
    assert(t.to_set().subset_of(range)) by {
        assert forall|v: int| t.to_set().contains(v) implies range.contains(v) by {
            let k = choose|k: int| 0 <= k < t.len() && t[k] == v;
            assert(s[k] < n);
        }
    }
    lemma_int_range(0, n as int);
    lemma_len_subset(t.to_set(), range);
    t.unique_seq_to_set();
    if s.len() == n {
        lemma_subset_equality(t.to_set(), range);
        assert forall|i: usize| i < n implies s.contains(i) by {
            assert(range.contains(i as int));
            assert(t.to_set().contains(i as int));
            let k = choose|k: int| 0 <= k < t.len() && t[k] == i as int;
            assert(s[k] == i);
        }
    }
}

/// A sequence of distinct items below `n` that is shorter than `n` misses an
/// item below `n`.
pub(crate) proof fn lemma_short_of_an_item(s: Seq<usize>, n: nat)
    requires
        s.no_duplicates(),
        s.len() < n <= usize::MAX,
    ensures
        exists|i: usize| i < n && !s.contains(i),
{
    if forall|i: usize| i < n ==> s.contains(i) {
        let t = s.map_values(|x: usize| x as int);
        let range = set_int_range(0, n as int);
        assert(t.no_duplicates());
        assert(range.subset_of(t.to_set())) by {
            assert forall|v: int| range.contains(v) implies t.to_set().contains(v) by {
                assert(s.contains(v as usize));
                let k = choose|k: int| 0 <= k < s.len() && s[k] == v as usize;
                assert(t[k] == v);
            }
        }
        lemma_int_range(0, n as int);
        seq_to_set_is_finite(t);
        lemma_len_subset(range, t.to_set());
        t.unique_seq_to_set();
        assert(false);
    }
}

} // verus!

//! Laws that relate the operations of the set to one another, stated over the
//! views that their contracts use.

use vstd::prelude::*;
use vstd::seq_lib::group_to_multiset_ensures;
use vstd::set_lib::{lemma_set_intersect_union_lens, lemma_set_disjoint_lens};

use crate::set::{lemma_wf_finite, HashSet};

verus! {

/// Each of two sets is a subset of the other exactly when the two are equal,
/// as `is_subset` and `eq` report them.
pub proof fn law_mutual_subset_is_equality<T, S>(a: &HashSet<T, S>, b: &HashSet<T, S>)
    ensures
        (a@.subset_of(b@) && b@.subset_of(a@)) <==> a@ == b@,
{
    if a@.subset_of(b@) && b@.subset_of(a@) {
        assert(a@ =~= b@);
    }
}

/// The union of two sets has as many elements as both together, less those
/// they share.
pub proof fn law_union_size<T, S>(a: &HashSet<T, S>, b: &HashSet<T, S>)
    requires
        a.wf(),
        b.wf(),
    ensures
        (a@ + b@).len() == a@.len() + b@.len() - a@.intersect(b@).len(),
{
    lemma_wf_finite(a);
    lemma_wf_finite(b);
    lemma_set_intersect_union_lens(a@, b@);
}

/// The intersection and the symmetric difference of two sets share no element,
/// and together they make up the union, each element once.
pub proof fn law_intersection_and_symmetric_difference_split_union<T, S>(
    a: &HashSet<T, S>,
    b: &HashSet<T, S>,
)
    requires
        a.wf(),
        b.wf(),
    ensures
        a@.intersect(b@).disjoint(a@.difference(b@) + b@.difference(a@)),
        a@.intersect(b@) + (a@.difference(b@) + b@.difference(a@)) == a@ + b@,
        a@.intersect(b@).len() + (a@.difference(b@) + b@.difference(a@)).len() == (a@
            + b@).len(),
{
    lemma_wf_finite(a);
    lemma_wf_finite(b);
    let both = a@.intersect(b@);
    let one = a@.difference(b@) + b@.difference(a@);
    assert(both + one =~= a@ + b@);
    lemma_set_disjoint_lens(both, one);
}

/// The empty set is a subset of every set and disjoint from every set, both
/// ways; every set is a superset of it, and it is a superset only of an empty
/// set.
pub proof fn law_empty_set_relations<T, S>(e: &HashSet<T, S>, b: &HashSet<T, S>)
    requires
        e@ == Set::<T>::empty(),
    ensures
        e@.subset_of(b@),
        e@.subset_of(e@),
        e@.disjoint(b@),
        b@.disjoint(e@),
        e@.disjoint(e@),
        b@.subset_of(e@) <==> b@ == Set::<T>::empty(),
{
    if b@.subset_of(e@) {
        assert(b@ =~= Set::<T>::empty());
    }
}

/// Inserting an element already present changes nothing, so the size stays.
pub proof fn law_insert_present_is_identity<T, S>(a: &HashSet<T, S>, x: T)
    requires
        a@.contains(x),
    ensures
        a@.insert(x) == a@,
        a@.insert(x).len() == a@.len(),
{
    assert(a@.insert(x) =~= a@);
}

/// A duplicate-free sequence, made into a set and iterated again, comes back
/// as the same multiset: `from_iter` gives the set of the sequence's items, and
/// `iter` yields a duplicate-free sequence of exactly the set's elements.
pub proof fn law_round_trip<T, S>(items: Seq<T>, set: &HashSet<T, S>, collected: Seq<T>)
    requires
        items.no_duplicates(),
        set@ == items.to_set(),
        collected.to_set() == set@,
        collected.no_duplicates(),
    ensures
        collected.to_multiset() == items.to_multiset(),
        collected.len() == items.len(),
{
    broadcast use group_to_multiset_ensures;

    items.lemma_multiset_has_no_duplicates();
    collected.lemma_multiset_has_no_duplicates();
    assert forall|x: T| collected.to_multiset().count(x) == items.to_multiset().count(x) by {
        assert(collected.contains(x) == collected.to_set().contains(x));
        assert(items.contains(x) == items.to_set().contains(x));
    }
    assert(collected.to_multiset() =~= items.to_multiset());
    collected.to_multiset_ensures();
    items.to_multiset_ensures();
}

} // verus!

//! The set type: a map from each element to the unit value.

use std::collections::hash_map::RandomState;
use std::collections::HashMap;
use std::hash::{BuildHasher, Hash};
use vstd::prelude::*;
use vstd::std_specs::hash::spec_keys_iter;
use vstd::std_specs::iter::IteratorSpec;

use crate::iter::{Drain, IntoIter, Iter};
use crate::map_calls::{
    deref_seq, hash_model, map_capacity, map_hasher, map_into_keys,
    map_remove_entry, map_shrink_to_fit, map_stored_key, map_take_one, map_with_capacity_and_hasher,
    map_with_hasher,
};

verus! {

broadcast use vstd::std_specs::hash::group_hash_axioms;

/// An unordered collection of distinct elements, parameterised by a hasher
/// factory `S`.
///
/// The contracts speak of element types and factories that follow the
/// hash-table model (`hash_model`): `==` on elements is exact equality and
/// hashing is deterministic. An element type whose `==` looks at a key only
/// and ignores a payload can still be stored, and `replace`, `get` and `take`
/// then work on the stored element as the map finds it, but no contract
/// speaks of such a type: under the model, equal elements are identical.
#[verifier::reject_recursive_types(T)]
#[verifier::reject_recursive_types(S)]
pub struct HashSet<T, S = RandomState> {
    hash_map: HashMap<T, (), S>,
}

impl<T, S> View for HashSet<T, S> {
    type V = Set<T>;

    /// The elements stored, as a mathematical set.
    closed spec fn view(&self) -> Set<T> {
        self.hash_map@.dom()
    }
}

impl<T, S> HashSet<T, S> {
    /// Well-formed: finitely many elements are stored.
    pub closed spec fn wf(&self) -> bool {
        self.hash_map@.dom().finite()
    }
}

/// A well-formed set has a finite view.
pub broadcast proof fn lemma_wf_finite<T, S>(s: &HashSet<T, S>)
    requires
        s.wf(),
    ensures
        #[trigger] s@.finite(),
{
}

impl<T: Hash + Eq> HashSet<T, RandomState> {
    /// An empty set with the default hasher factory.
    pub fn new() -> (r: HashSet<T, RandomState>)
        ensures
            r.wf(),
            r@ == Set::<T>::empty(),
    {
        HashSet { hash_map: HashMap::new() }
    }

    /// An empty set with room for at least `capacity` elements.
    pub fn with_capacity(capacity: usize) -> (r: HashSet<T, RandomState>)
        ensures
            r.wf(),
            r@ == Set::<T>::empty(),
    {
        HashSet { hash_map: HashMap::with_capacity(capacity) }
    }
}

impl<T: Eq + Hash, S: BuildHasher> HashSet<T, S> {
    /// An empty set that hashes with `hasher`.
    pub fn with_hasher(hasher: S) -> (r: HashSet<T, S>)
        ensures
            r.wf(),
            r@ == Set::<T>::empty(),
    {
        HashSet { hash_map: map_with_hasher(hasher) }
    }

    /// An empty set that hashes with `hasher` and has room for `capacity` elements.
    pub fn with_capacity_and_hasher(capacity: usize, hasher: S) -> (r: HashSet<T, S>)
        ensures
            r.wf(),
            r@ == Set::<T>::empty(),
    {
        HashSet { hash_map: map_with_capacity_and_hasher(capacity, hasher) }
    }

    /// The hasher factory of this set.
    pub fn hasher(&self) -> &S {
        map_hasher(&self.hash_map)
    }

    /// How many elements the set holds before its storage grows.
    pub fn capacity(&self) -> usize {
        map_capacity(&self.hash_map)
    }

    /// Reserves room for `additional` more elements; the elements stay as they are.
    pub fn reserve(&mut self, additional: usize)
        requires
            old(self).wf(),
        ensures
            final(self).wf(),
            final(self)@ == old(self)@,
    {
        self.hash_map.reserve(additional)
    }

    /// Frees spare room; the elements stay as they are.
    pub fn shrink_to_fit(&mut self)
        requires
            old(self).wf(),
        ensures
            final(self).wf(),
            final(self)@ == old(self)@,
    {
        map_shrink_to_fit(&mut self.hash_map)
    }

    /// The number of elements.
    pub fn len(&self) -> (r: usize)
        requires
            self.wf(),
            hash_model::<T, S>(),
        ensures
            r == self@.len(),
    {
        self.hash_map.len()
    }

    /// Removes every element.
    pub fn clear(&mut self)
        ensures
            final(self).wf(),
            final(self)@ == Set::<T>::empty(),
    {
        self.hash_map.clear()
    }

    /// Whether an element equal to `value` is stored.
    pub fn contains(&self, value: &T) -> (r: bool)
        requires
            self.wf(),
            hash_model::<T, S>(),
        ensures
            r == self@.contains(*value),
    {
        self.hash_map.contains_key(value)
    }

    /// The stored element equal to `value`, if there is one.
    pub fn get(&self, value: &T) -> (r: Option<&T>)
        requires
            self.wf(),
            hash_model::<T, S>(),
        ensures
            match r {
                Some(stored) => self@.contains(*value) && *stored == *value,
                None => !self@.contains(*value),
            },
    {
        map_stored_key(&self.hash_map, value)
    }

    /// Adds `value` unless an equal element is stored, and says whether it was added.
    /// An element already stored is left in place.
    pub fn insert(&mut self, value: T) -> (r: bool)
        requires
            old(self).wf(),
            hash_model::<T, S>(),
        ensures
            final(self).wf(),
            r == !old(self)@.contains(value),
            final(self)@ == old(self)@.insert(value),
    {
        let prior = self.hash_map.insert(value, ());
        prior.is_none()
    }

    /// Stores `value` in place of an equal element, and hands back the element it
    /// replaced, if there was one.
    pub fn replace(&mut self, value: T) -> (r: Option<T>)
        requires
            old(self).wf(),
            hash_model::<T, S>(),
        ensures
            final(self).wf(),
            final(self)@ == old(self)@.insert(value),
            match r {
                Some(prior) => old(self)@.contains(value) && prior == value,
                None => !old(self)@.contains(value),
            },
    {
        let prior = map_remove_entry(&mut self.hash_map, &value);
        self.hash_map.insert(value, ());
        proof {
            assert(self.hash_map@.dom() =~= old(self).hash_map@.dom().insert(value));
        }
        prior
    }

    /// Removes the element equal to `value` and hands it back, if there is one.
    pub fn take(&mut self, value: &T) -> (r: Option<T>)
        requires
            old(self).wf(),
            hash_model::<T, S>(),
        ensures
            final(self).wf(),
            final(self)@ == old(self)@.remove(*value),
            match r {
                Some(prior) => old(self)@.contains(*value) && prior == *value,
                None => !old(self)@.contains(*value),
            },
    {
        map_remove_entry(&mut self.hash_map, value)
    }

    /// Removes the element equal to `value`, and says whether there was one.
    pub fn remove(&mut self, value: &T) -> (r: bool)
        requires
            old(self).wf(),
            hash_model::<T, S>(),
        ensures
            final(self).wf(),
            r == old(self)@.contains(*value),
            final(self)@ == old(self)@.remove(*value),
    {
        let prior = self.hash_map.remove(value);
        prior.is_some()
    }

    /// An iterator over the elements, each yielded once, in no particular order.
    pub fn iter(&self) -> (r: Iter<'_, T>)
        requires
            self.wf(),
            hash_model::<T, S>(),
        ensures
            r.wf(),
            r@.to_set() == self@,
            r@.no_duplicates(),
            r@.len() == self@.len(),
    {
        let mut items: Vec<&T> = Vec::new();
        let keys = self.hash_map.keys();
        let ghost all = keys.remaining();
        for key in it: keys
            invariant
                all == spec_keys_iter(&self.hash_map).remaining(),
                it.seq() == all,
                items@ == all.take(it.index()),
        {
            items.push(key);
        }
        proof {
            assert(items@ =~= all);
            assert(deref_seq(items@) =~= all.unref());
        }
        let r = Iter::from_refs(items);
        proof {
            r@.unique_seq_to_set();
        }
        r
    }

    /// Removes some element and hands it back, or `None` when the set is empty.
    pub(crate) fn take_any(&mut self) -> (r: Option<T>)
        requires
            old(self).wf(),
            hash_model::<T, S>(),
        ensures
            final(self).wf(),
            match r {
                Some(x) => old(self)@.contains(x) && final(self)@ == old(self)@.remove(x),
                None => old(self)@ == Set::<T>::empty() && final(self)@ == old(self)@,
            },
    {
        map_take_one(&mut self.hash_map)
    }

    /// A drain over this set: each element leaves the set as the drain yields
    /// it, and a drain run until it yields `None` leaves the set empty.
    pub fn drain(&mut self) -> (r: Drain<'_, T, S>)
        requires
            old(self).wf(),
            hash_model::<T, S>(),
        ensures
            r.wf(),
            r@ == old(self)@,
            *final(self) == *final(r.set),
    {
        Drain { set: self }
    }

    /// Turns the set into an iterator that yields each element exactly once.
    pub fn into_iter(self) -> (r: IntoIter<T>)
        requires
            self.wf(),
            hash_model::<T, S>(),
        ensures
            r@.to_set() == self@,
            r@.no_duplicates(),
            r@.len() == self@.len(),
    {
        let r = IntoIter::from_vec(map_into_keys(self.hash_map));
        proof {
            r@.unique_seq_to_set();
        }
        r
    }

    /// Whether membership in `other` equals `want` for every element of this set.
    fn all_members_in(&self, other: &HashSet<T, S>, want: bool) -> (r: bool)
        requires
            self.wf(),
            other.wf(),
            hash_model::<T, S>(),
        ensures
            r == forall|x: T| self@.contains(x) ==> other@.contains(x) == want,
    {
        let mut it = self.iter();
        let ghost all = it@;
        let ghost mut k: int = 0;
        loop
            invariant
                it.wf(),
                other.wf(),
                hash_model::<T, S>(),
                0 <= k <= all.len(),
                it@ == all.subrange(k, all.len() as int),
                all.to_set() == self@,
                forall|i: int| 0 <= i < k ==> other@.contains(#[trigger] all[i]) == want,
            decreases it@.len(),
        {
            match it.next() {
                None => {
                    proof {
                        assert forall|x: T| self@.contains(x) implies other@.contains(x)
                            == want by {
                            assert(all.contains(x));
                        }
                    }
                    return true;
                },
                Some(elt) => {
                    proof {
                        assert(all[k] == *elt);
                        assert(all.contains(*elt));
                    }
                    if other.contains(elt) != want {
                        return false;
                    }
                    proof {
                        assert(it@ =~= all.subrange(k + 1, all.len() as int));
                        k = k + 1;
                    }
                },
            }
        }
    }

    /// Whether no element of this set is in `other`.
    pub fn is_disjoint(&self, other: &HashSet<T, S>) -> (r: bool)
        requires
            self.wf(),
            other.wf(),
            hash_model::<T, S>(),
        ensures
            r == self@.disjoint(other@),
    {
        self.all_members_in(other, false)
    }

    /// Whether every element of this set is in `other`.
    pub fn is_subset(&self, other: &HashSet<T, S>) -> (r: bool)
        requires
            self.wf(),
            other.wf(),
            hash_model::<T, S>(),
        ensures
            r == self@.subset_of(other@),
    {
        self.all_members_in(other, true)
    }

    /// Whether every element of `other` is in this set.
    pub fn is_superset(&self, other: &HashSet<T, S>) -> (r: bool)
        requires
            self.wf(),
            other.wf(),
            hash_model::<T, S>(),
        ensures
            r == other@.subset_of(self@),
    {
        other.is_subset(self)
    }

    /// Whether the two sets hold the same elements: equal sizes, and every
    /// element of this set is in `other`.
    pub fn eq(&self, other: &HashSet<T, S>) -> (r: bool)
        requires
            self.wf(),
            other.wf(),
            hash_model::<T, S>(),
        ensures
            r == (self@ == other@),
    {
        if self.len() != other.len() {
            false
        } else {
            let r = self.is_subset(other);
            proof {
                if r {
                    vstd::set_lib::lemma_subset_equality(self@, other@);
                }
            }
            r
        }
    }

    /// Adds each element of `items`, in order; an element equal to one already
    /// stored is not added.
    pub fn extend(&mut self, items: Vec<T>)
        requires
            old(self).wf(),
            hash_model::<T, S>(),
        ensures
            final(self).wf(),
            final(self)@ == old(self)@ + items@.to_set(),
    {
        let ghost all = items@;
        for item in it: items
            invariant
                self.wf(),
                hash_model::<T, S>(),
                it.seq() == all,
                self@ == old(self)@ + all.take(it.index()).to_set(),
        {
            proof {
                assert(all.take(it.index() + 1) =~= all.take(it.index()).push(item));
                all.take(it.index()).lemma_push_to_set_commute(item);
            }
            self.insert(item);
        }
        proof {
            assert(all.take(all.len() as int) =~= all);
        }
    }
}

impl<T: Eq + Hash + Copy, S: BuildHasher> HashSet<T, S> {
    /// Adds a copy of each referenced element, in order; an element equal to one
    /// already stored is not added.
    pub fn extend_from_refs(&mut self, items: Vec<&T>)
        requires
            old(self).wf(),
            hash_model::<T, S>(),
        ensures
            final(self).wf(),
            final(self)@ == old(self)@ + deref_seq(items@).to_set(),
    {
        let ghost all = deref_seq(items@);
        let mut i: usize = 0;
        while i < items.len()
            invariant
                self.wf(),
                hash_model::<T, S>(),
                i <= items@.len(),
                all == deref_seq(items@),
                self@ == old(self)@ + all.take(i as int).to_set(),
            decreases items@.len() - i,
        {
            let item: T = *items[i];
            proof {
                assert(all.take(i + 1) =~= all.take(i as int).push(item));
                all.take(i as int).lemma_push_to_set_commute(item);
            }
            self.insert(item);
            i = i + 1;
        }
        proof {
            assert(all.take(i as int) =~= all);
        }
    }
}

impl<T: Eq + Hash, S: BuildHasher + Default> HashSet<T, S> {
    /// A set of the elements of `items`, with the default hasher factory.
    pub fn from_iter(items: Vec<T>) -> (r: HashSet<T, S>)
        requires
            hash_model::<T, S>(),
        ensures
            r.wf(),
            r@ == items@.to_set(),
    {
        let mut set = HashSet::with_hasher(S::default());
        set.extend(items);
        proof {
            assert(set@ =~= items@.to_set());
        }
        set
    }
}

impl<T: Clone, S: Clone> Clone for HashSet<T, S> {
    /// A set with the same elements and a copy of the hasher factory.
    fn clone(&self) -> (r: HashSet<T, S>)
        ensures
            r@ == self@,
            self.wf() ==> r.wf(),
    {
        HashSet { hash_map: self.hash_map.clone() }
    }
}

impl<T: Eq + Hash, S: BuildHasher + Default> Default for HashSet<T, S> {
    fn default() -> (r: HashSet<T, S>)
        ensures
            r.wf(),
            r@ == Set::<T>::empty(),
    {
        HashSet::with_hasher(S::default())
    }
}

} // verus!

//! Set algebra that builds a new set: each element that a lazy iterator yields
//! is cloned into a fresh set with the default hasher factory.

use std::hash::{BuildHasher, Hash};
use vstd::pervasive::strictly_cloned;
use vstd::prelude::*;

use crate::map_calls::hash_model;
use crate::set::HashSet;

verus! {

/// Cloning an element gives an equal element.
pub open spec fn clone_is_exact<T: Clone>() -> bool {
    forall|a: T, b: T| #[trigger] strictly_cloned(a, b) ==> a == b
}

/// Taking item `k` of `all` off the front of what is left adds it to the set
/// of the items taken before it.
proof fn lemma_collect_step<T>(all: Seq<T>, k: int, x: T)
    requires
        0 <= k < all.len(),
        all[k] == x,
    ensures
        all.take(k + 1).to_set() == all.take(k).to_set().insert(x),
        all.subrange(k, all.len() as int).drop_first() == all.subrange(k + 1, all.len() as int),
{
    assert(all.take(k + 1) =~= all.take(k).push(x));
    all.take(k).lemma_push_to_set_commute(x);
    assert(all.subrange(k, all.len() as int).drop_first() =~= all.subrange(
        k + 1,
        all.len() as int,
    ));
}

impl<T: Eq + Hash + Clone, S: BuildHasher + Default> HashSet<T, S> {
    /// A new set of the elements of either set.
    pub fn bitor(&self, rhs: &HashSet<T, S>) -> (r: HashSet<T, S>)
        requires
            self.wf(),
            rhs.wf(),
            hash_model::<T, S>(),
            clone_is_exact::<T>(),
        ensures
            r.wf(),
            r@ == self@ + rhs@,
    {
        let mut it = self.union(rhs);
        let ghost all = it@;
        let ghost mut k: int = 0;
        let mut out: HashSet<T, S> = HashSet::with_hasher(S::default());
        loop
            invariant
                it.wf(),
                out.wf(),
                hash_model::<T, S>(),
                clone_is_exact::<T>(),
                0 <= k <= all.len(),
                it@ == all.subrange(k, all.len() as int),
                out@ == all.take(k).to_set(),
                all.to_set() == self@ + rhs@,
            decreases it@.len(),
        {
            match it.next() {
                None => {
                    proof {
                        assert(all.take(k) =~= all);
                    }
                    return out;
                },
                Some(elt) => {
                    let copy = T::clone(elt);
                    proof {
                        assert(strictly_cloned(*elt, copy));
                        lemma_collect_step(all, k, copy);
                        k = k + 1;
                    }
                    out.insert(copy);
                },
            }
        }
    }

    /// A new set of the elements of both sets.
    pub fn bitand(&self, rhs: &HashSet<T, S>) -> (r: HashSet<T, S>)
        requires
            self.wf(),
            rhs.wf(),
            hash_model::<T, S>(),
            clone_is_exact::<T>(),
        ensures
            r.wf(),
            r@ == self@.intersect(rhs@),
    {
        let mut it = self.intersection(rhs);
        let ghost all = it@;
        let ghost mut k: int = 0;
        let mut out: HashSet<T, S> = HashSet::with_hasher(S::default());
        loop
            invariant
                it.wf(),
                out.wf(),
                hash_model::<T, S>(),
                clone_is_exact::<T>(),
                0 <= k <= all.len(),
                it@ == all.subrange(k, all.len() as int),
                out@ == all.take(k).to_set(),
                all.to_set() == self@.intersect(rhs@),
            decreases it@.len(),
        {
            match it.next() {
                None => {
                    proof {
                        assert(all.take(k) =~= all);
                    }
                    return out;
                },
                Some(elt) => {
                    let copy = T::clone(elt);
                    proof {
                        assert(strictly_cloned(*elt, copy));
                        lemma_collect_step(all, k, copy);
                        k = k + 1;
                    }
                    out.insert(copy);
                },
            }
        }
    }

    /// A new set of the elements of exactly one of the two sets.
    pub fn bitxor(&self, rhs: &HashSet<T, S>) -> (r: HashSet<T, S>)
        requires
            self.wf(),
            rhs.wf(),
            hash_model::<T, S>(),
            clone_is_exact::<T>(),
        ensures
            r.wf(),
            r@ == self@.difference(rhs@) + rhs@.difference(self@),
    {
        let mut it = self.symmetric_difference(rhs);
        let ghost all = it@;
        let ghost mut k: int = 0;
        let mut out: HashSet<T, S> = HashSet::with_hasher(S::default());
        loop
            invariant
                it.wf(),
                out.wf(),
                hash_model::<T, S>(),
                clone_is_exact::<T>(),
                0 <= k <= all.len(),
                it@ == all.subrange(k, all.len() as int),
                out@ == all.take(k).to_set(),
                all.to_set() == self@.difference(rhs@) + rhs@.difference(self@),
            decreases it@.len(),
        {
            match it.next() {
                None => {
                    proof {
                        assert(all.take(k) =~= all);
                    }
                    return out;
                },
                Some(elt) => {
                    let copy = T::clone(elt);
                    proof {
                        assert(strictly_cloned(*elt, copy));
                        lemma_collect_step(all, k, copy);
                        k = k + 1;
                    }
                    out.insert(copy);
                },
            }
        }
    }

    /// A new set of the elements of this set that `rhs` lacks.
    pub fn sub(&self, rhs: &HashSet<T, S>) -> (r: HashSet<T, S>)
        requires
            self.wf(),
            rhs.wf(),
            hash_model::<T, S>(),
            clone_is_exact::<T>(),
        ensures
            r.wf(),
            r@ == self@.difference(rhs@),
    {
        let mut it = self.difference(rhs);
        let ghost all = it@;
        let ghost mut k: int = 0;
        let mut out: HashSet<T, S> = HashSet::with_hasher(S::default());
        loop
            invariant
                it.wf(),
                out.wf(),
                hash_model::<T, S>(),
                clone_is_exact::<T>(),
                0 <= k <= all.len(),
                it@ == all.subrange(k, all.len() as int),
                out@ == all.take(k).to_set(),
                all.to_set() == self@.difference(rhs@),
            decreases it@.len(),
        {
            match it.next() {
                None => {
                    proof {
                        assert(all.take(k) =~= all);
                    }
                    return out;
                },
                Some(elt) => {
                    let copy = T::clone(elt);
                    proof {
                        assert(strictly_cloned(*elt, copy));
                        lemma_collect_step(all, k, copy);
                        k = k + 1;
                    }
                    out.insert(copy);
                },
            }
        }
    }
}

} // verus!

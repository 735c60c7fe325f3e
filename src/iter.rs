//! Iterators over a set: the plain ones, and the lazy set-algebra ones that
//! filter and chain them.

use std::hash::{BuildHasher, Hash};
use vstd::prelude::*;
use vstd::seq_lib::lemma_no_dup_in_concat;

use crate::map_calls::{deref_seq, hash_model};
use crate::set::HashSet;

verus! {

/// The items of `s`, in order, whose membership in `other` equals `keep`.
pub open spec fn select<T>(s: Seq<T>, other: Set<T>, keep: bool) -> Seq<T>
    decreases s.len(),
{
    if s.len() == 0 {
        Seq::empty()
    } else if other.contains(s[0]) == keep {
        seq![s[0]] + select(s.drop_first(), other, keep)
    } else {
        select(s.drop_first(), other, keep)
    }
}

/// `select` keeps exactly the items of `s` whose membership in `other` is `keep`,
/// never adds an item, and is no longer than `s`.
pub proof fn lemma_select<T>(s: Seq<T>, other: Set<T>, keep: bool)
    ensures
        select(s, other, keep).len() <= s.len(),
        forall|x: T|
            #[trigger] select(s, other, keep).contains(x) <==> (s.contains(x) && other.contains(x)
                == keep),
        s.no_duplicates() ==> select(s, other, keep).no_duplicates(),
    decreases s.len(),
{
    if s.len() > 0 {
        let rest = s.drop_first();
        lemma_select(rest, other, keep);
        assert forall|x: T| s.contains(x) <==> (x == s[0] || rest.contains(x)) by {
            if x == s[0] {
                assert(s[0] == x);
            }
            if s.contains(x) && x != s[0] {
                let i = choose|i: int| 0 <= i < s.len() && s[i] == x;
                assert(rest[i - 1] == x);
            }
            if rest.contains(x) {
                let i = choose|i: int| 0 <= i < rest.len() && rest[i] == x;
                assert(s[i + 1] == x);
            }
        }
        if other.contains(s[0]) == keep {
            let tail = select(rest, other, keep);
            let r = seq![s[0]] + tail;
            assert forall|x: T| r.contains(x) <==> (x == s[0] || tail.contains(x)) by {
                if x == s[0] {
                    assert(r[0] == x);
                }
                if r.contains(x) && x != s[0] {
                    let i = choose|i: int| 0 <= i < r.len() && r[i] == x;
                    assert(tail[i - 1] == x);
                }
                if tail.contains(x) {
                    let i = choose|i: int| 0 <= i < tail.len() && tail[i] == x;
                    assert(r[i + 1] == x);
                }
            }
            if s.no_duplicates() {
                assert(!rest.contains(s[0])) by {
                    if rest.contains(s[0]) {
                        let i = choose|i: int| 0 <= i < rest.len() && rest[i] == s[0];
                        assert(s[i + 1] == s[0]);
                    }
                }
                assert(rest.no_duplicates()) by {
                    assert forall|i: int, j: int|
                        0 <= i < rest.len() && 0 <= j < rest.len() && i != j implies rest[i]
                        != rest[j] by {
                        assert(s[i + 1] == rest[i] && s[j + 1] == rest[j]);
                    }
                }
                assert(!tail.contains(s[0]));
                assert forall|i: int, j: int|
                    0 <= i < r.len() && 0 <= j < r.len() && i != j implies r[i] != r[j] by {
                    if i == 0 && j > 0 {
                        assert(tail.contains(r[j]));
                    } else if j == 0 && i > 0 {
                        assert(tail.contains(r[i]));
                    } else if i > 0 && j > 0 {
                        assert(r[i] == tail[i - 1] && r[j] == tail[j - 1]);
                    }
                }
            }
        } else {
            if s.no_duplicates() {
                assert(rest.no_duplicates()) by {
                    assert forall|i: int, j: int|
                        0 <= i < rest.len() && 0 <= j < rest.len() && i != j implies rest[i]
                        != rest[j] by {
                        assert(s[i + 1] == rest[i] && s[j + 1] == rest[j]);
                    }
                }
            }
        }
    }
}

/// The elements of a set, each yielded once, in the map's order.
pub struct Iter<'a, T> {
    items: Vec<&'a T>,
    pos: usize,
}

impl<'a, T> View for Iter<'a, T> {
    type V = Seq<T>;

    /// The elements not yet yielded, in the order they will come.
    closed spec fn view(&self) -> Seq<T> {
        deref_seq(self.items@).subrange(self.pos as int, self.items@.len() as int)
    }
}

impl<'a, T> Iter<'a, T> {
    /// Well-formed: the cursor stands within the snapshot.
    pub closed spec fn wf(&self) -> bool {
        self.pos <= self.items@.len()
    }

    /// An iterator that yields the referenced items in order.
    pub(crate) fn from_refs(items: Vec<&'a T>) -> (r: Iter<'a, T>)
        ensures
            r.wf(),
            r@ == deref_seq(items@),
    {
        let r = Iter { items, pos: 0 };
        proof {
            assert(r@ =~= deref_seq(items@));
        }
        r
    }

    /// The next element, or `None` once every element has been yielded.
    pub fn next(&mut self) -> (r: Option<&'a T>)
        requires
            old(self).wf(),
        ensures
            final(self).wf(),
            old(self)@.len() > 0 ==> r == Some(&old(self)@[0]) && final(self)@ == old(
                self,
            )@.drop_first(),
            old(self)@.len() == 0 ==> r is None && final(self)@ == old(self)@,
    {
        if self.pos < self.items.len() {
            let item = self.items[self.pos];
            self.pos = self.pos + 1;
            proof {
                assert(self@ =~= old(self)@.drop_first());
            }
            Some(item)
        } else {
            None
        }
    }

    /// The number of elements left.
    pub fn len(&self) -> (r: usize)
        requires
            self.wf(),
        ensures
            r == self@.len(),
    {
        self.items.len() - self.pos
    }

    /// Exact bounds on the number of elements left.
    pub fn size_hint(&self) -> (r: (usize, Option<usize>))
        requires
            self.wf(),
        ensures
            self@.len() <= usize::MAX,
            r == (self@.len() as usize, Some(self@.len() as usize)),
    {
        let n = self.len();
        (n, Some(n))
    }
}

impl<'a, T> Clone for Iter<'a, T> {
    /// An iterator that resumes from the same place, independently of this one.
    fn clone(&self) -> (r: Iter<'a, T>)
        ensures
            r@ == self@,
            r.wf() == self.wf(),
    {
        let items = self.items.clone();
        proof {
            assert(items@ =~= self.items@);
        }
        Iter { items, pos: self.pos }
    }
}

/// Owned elements taken out of a set, each yielded once.
pub struct IntoIter<T> {
    items: Vec<T>,
}

impl<T> View for IntoIter<T> {
    type V = Seq<T>;

    /// The elements not yet yielded, in the order they will come.
    closed spec fn view(&self) -> Seq<T> {
        self.items@.reverse()
    }
}

impl<T> IntoIter<T> {
    /// An iterator that yields the given elements.
    pub(crate) fn from_vec(items: Vec<T>) -> (r: IntoIter<T>)
        ensures
            r@.to_set() == items@.to_set(),
            r@.no_duplicates() == items@.no_duplicates(),
            r@.len() == items@.len(),
    {
        let r = IntoIter { items };
        proof {
            lemma_reverse_same_items(items@);
        }
        r
    }

    /// The next element, or `None` once every element has been yielded.
    pub fn next(&mut self) -> (r: Option<T>)
        ensures
            old(self)@.len() > 0 ==> r == Some(old(self)@[0]) && final(self)@ == old(
                self,
            )@.drop_first(),
            old(self)@.len() == 0 ==> r is None && final(self)@ == old(self)@,
    {
        let r = self.items.pop();
        proof {
            if old(self)@.len() > 0 {
                assert(self@ =~= old(self)@.drop_first());
            }
        }
        r
    }

    /// The number of elements left.
    pub fn len(&self) -> (r: usize)
        ensures
            r == self@.len(),
    {
        self.items.len()
    }

    /// Exact bounds on the number of elements left.
    pub fn size_hint(&self) -> (r: (usize, Option<usize>))
        ensures
            r == (self@.len() as usize, Some(self@.len() as usize)),
    {
        let n = self.items.len();
        (n, Some(n))
    }
}

/// Takes the elements out of a set one at a time: each call of `next` removes
/// the element it yields. The set, borrowed for the drain's lifetime, always
/// holds exactly the elements not yet yielded, so a drain dropped early leaves
/// those in place.
#[verifier::reject_recursive_types(T)]
#[verifier::reject_recursive_types(S)]
pub struct Drain<'a, T, S> {
    /// The set being drained.
    pub set: &'a mut HashSet<T, S>,
}

impl<'a, T, S> View for Drain<'a, T, S> {
    type V = Set<T>;

    /// The elements not yet yielded: what the set now holds.
    open spec fn view(&self) -> Set<T> {
        (*self.set)@
    }
}

impl<'a, T: Eq + Hash, S: BuildHasher> Drain<'a, T, S> {
    /// Well-formed: the set being drained is.
    pub open spec fn wf(&self) -> bool {
        self.set.wf()
    }

    /// Removes some element from the set and yields it, or yields `None` once
    /// the set is empty.
    pub fn next(&mut self) -> (r: Option<T>)
        requires
            old(self).wf(),
            hash_model::<T, S>(),
        ensures
            final(self).wf(),
            *final(final(self).set) == *final(old(self).set),
            match r {
                Some(x) => old(self)@.contains(x) && final(self)@ == old(self)@.remove(x),
                None => old(self)@ == Set::<T>::empty() && final(self)@ == old(self)@,
            },
    {
        self.set.take_any()
    }

    /// The number of elements not yet yielded.
    pub fn len(&self) -> (r: usize)
        requires
            self.wf(),
            hash_model::<T, S>(),
        ensures
            r == self@.len(),
    {
        self.set.len()
    }

    /// Exact bounds on the number of elements not yet yielded.
    pub fn size_hint(&self) -> (r: (usize, Option<usize>))
        requires
            self.wf(),
            hash_model::<T, S>(),
        ensures
            r == (self@.len() as usize, Some(self@.len() as usize)),
    {
        let n = self.set.len();
        (n, Some(n))
    }
}

/// A sequence and its reverse hold the same items, equally often.
pub proof fn lemma_reverse_same_items<T>(s: Seq<T>)
    ensures
        s.reverse().len() == s.len(),
        s.reverse().to_set() == s.to_set(),
        s.reverse().no_duplicates() == s.no_duplicates(),
{
    let r = s.reverse();
    assert forall|x: T| r.contains(x) <==> s.contains(x) by {
        if r.contains(x) {
            let i = choose|i: int| 0 <= i < r.len() && r[i] == x;
            assert(s[s.len() - 1 - i] == x);
        }
        if s.contains(x) {
            let i = choose|i: int| 0 <= i < s.len() && s[i] == x;
            assert(r[s.len() - 1 - i] == x);
        }
    }
    assert(r.to_set() =~= s.to_set());
    if s.no_duplicates() {
        assert forall|i: int, j: int| 0 <= i < r.len() && 0 <= j < r.len() && i != j implies r[i]
            != r[j] by {
            assert(r[i] == s[s.len() - 1 - i] && r[j] == s[s.len() - 1 - j]);
        }
    }
    if r.no_duplicates() {
        assert forall|i: int, j: int| 0 <= i < s.len() && 0 <= j < s.len() && i != j implies s[i]
            != s[j] by {
            assert(s[i] == r[s.len() - 1 - i] && s[j] == r[s.len() - 1 - j]);
        }
    }
}

/// Lazily yields the elements of one set that the other set lacks.
#[verifier::reject_recursive_types(T)]
#[verifier::reject_recursive_types(S)]
pub struct Difference<'a, T, S> {
    iter: Iter<'a, T>,
    other: &'a HashSet<T, S>,
}

impl<'a, T, S> View for Difference<'a, T, S> {
    type V = Seq<T>;

    /// The elements still to come, in order.
    closed spec fn view(&self) -> Seq<T> {
        select(self.iter@, self.other@, false)
    }
}

impl<'a, T: Eq + Hash, S: BuildHasher> Clone for Difference<'a, T, S> {
    /// An iterator that resumes from the same place, independently of this one.
    fn clone(&self) -> (r: Difference<'a, T, S>)
        ensures
            r@ == self@,
            r.wf() == self.wf(),
            r.upper() == self.upper(),
    {
        Difference { iter: self.iter.clone(), other: self.other }
    }
}

impl<'a, T: Eq + Hash, S: BuildHasher> Difference<'a, T, S> {
    /// Well-formed: both parts are.
    pub closed spec fn wf(&self) -> bool {
        self.iter.wf() && self.other.wf()
    }

    /// The number of elements of the first set not yet examined: a bound on
    /// what is still to come.
    pub closed spec fn upper(&self) -> nat {
        self.iter@.len()
    }

    /// Filters the elements that `iter` yields against membership in `other`.
    pub(crate) fn filter(iter: Iter<'a, T>, other: &'a HashSet<T, S>) -> (r: Difference<'a, T, S>)
        requires
            iter.wf(),
            other.wf(),
        ensures
            r.wf(),
            r@ == select(iter@, other@, false),
            r.upper() == iter@.len(),
    {
        Difference { iter, other }
    }

    /// The next element, or `None` once every element has been yielded.
    pub fn next(&mut self) -> (r: Option<&'a T>)
        requires
            old(self).wf(),
            hash_model::<T, S>(),
        ensures
            final(self).wf(),
            final(self).upper() <= old(self).upper(),
            old(self)@.len() > 0 ==> r == Some(&old(self)@[0]) && final(self)@ == old(
                self,
            )@.drop_first(),
            old(self)@.len() == 0 ==> r is None && final(self)@ == old(self)@,
    {
        loop
            invariant
                self.wf(),
                self.other == old(self).other,
                hash_model::<T, S>(),
                self@ == old(self)@,
                self.upper() <= old(self).upper(),
            decreases self.iter@.len(),
        {
            let ghost before = self.iter@;
            match self.iter.next() {
                None => {
                    return None;
                },
                Some(elt) => {
                    assert(before.drop_first() == self.iter@);
                    if !self.other.contains(elt) {
                        proof {
                            assert(final(self)@ == old(self)@.drop_first());
                        }
                        return Some(elt);
                    }
                },
            }
        }
    }

    /// Bounds on the number of elements still to come: none at least, and at most
    /// as many as the first set has left.
    pub fn size_hint(&self) -> (r: (usize, Option<usize>))
        requires
            self.wf(),
        ensures
            self@.len() <= self.upper() <= usize::MAX,
            r == (0usize, Some(self.upper() as usize)),
    {
        proof {
            lemma_select(self.iter@, self.other@, false);
        }
        (0, Some(self.iter.len()))
    }
}

/// Lazily yields the elements of one set that the other set holds too.
#[verifier::reject_recursive_types(T)]
#[verifier::reject_recursive_types(S)]
pub struct Intersection<'a, T, S> {
    iter: Iter<'a, T>,
    other: &'a HashSet<T, S>,
}

impl<'a, T, S> View for Intersection<'a, T, S> {
    type V = Seq<T>;

    /// The elements still to come, in order.
    closed spec fn view(&self) -> Seq<T> {
        select(self.iter@, self.other@, true)
    }
}

impl<'a, T: Eq + Hash, S: BuildHasher> Clone for Intersection<'a, T, S> {
    /// An iterator that resumes from the same place, independently of this one.
    fn clone(&self) -> (r: Intersection<'a, T, S>)
        ensures
            r@ == self@,
            r.wf() == self.wf(),
            r.upper() == self.upper(),
    {
        Intersection { iter: self.iter.clone(), other: self.other }
    }
}

impl<'a, T: Eq + Hash, S: BuildHasher> Intersection<'a, T, S> {
    /// Well-formed: both parts are.
    pub closed spec fn wf(&self) -> bool {
        self.iter.wf() && self.other.wf()
    }

    /// The number of elements of the first set not yet examined: a bound on
    /// what is still to come.
    pub closed spec fn upper(&self) -> nat {
        self.iter@.len()
    }

    /// Filters the elements that `iter` yields against membership in `other`.
    pub(crate) fn filter(iter: Iter<'a, T>, other: &'a HashSet<T, S>) -> (r: Intersection<'a, T, S>)
        requires
            iter.wf(),
            other.wf(),
        ensures
            r.wf(),
            r@ == select(iter@, other@, true),
            r.upper() == iter@.len(),
    {
        Intersection { iter, other }
    }

    /// The next element, or `None` once every element has been yielded.
    pub fn next(&mut self) -> (r: Option<&'a T>)
        requires
            old(self).wf(),
            hash_model::<T, S>(),
        ensures
            final(self).wf(),
            final(self).upper() <= old(self).upper(),
            old(self)@.len() > 0 ==> r == Some(&old(self)@[0]) && final(self)@ == old(
                self,
            )@.drop_first(),
            old(self)@.len() == 0 ==> r is None && final(self)@ == old(self)@,
    {
        loop
            invariant
                self.wf(),
                self.other == old(self).other,
                hash_model::<T, S>(),
                self@ == old(self)@,
                self.upper() <= old(self).upper(),
            decreases self.iter@.len(),
        {
            let ghost before = self.iter@;
            match self.iter.next() {
                None => {
                    return None;
                },
                Some(elt) => {
                    assert(before.drop_first() == self.iter@);
                    if self.other.contains(elt) {
                        proof {
                            assert(final(self)@ == old(self)@.drop_first());
                        }
                        return Some(elt);
                    }
                },
            }
        }
    }

    /// Bounds on the number of elements still to come: none at least, and at most
    /// as many as the first set has left.
    pub fn size_hint(&self) -> (r: (usize, Option<usize>))
        requires
            self.wf(),
        ensures
            self@.len() <= self.upper() <= usize::MAX,
            r == (0usize, Some(self.upper() as usize)),
    {
        proof {
            lemma_select(self.iter@, self.other@, true);
        }
        (0, Some(self.iter.len()))
    }
}

/// Lazily yields every element of one set, then each element of the other that
/// the first lacks.
#[verifier::reject_recursive_types(T)]
#[verifier::reject_recursive_types(S)]
pub struct Union<'a, T, S> {
    first: Iter<'a, T>,
    second: Difference<'a, T, S>,
}

impl<'a, T, S> View for Union<'a, T, S> {
    type V = Seq<T>;

    /// The elements still to come, in order: what the first part has left,
    /// then what the second part has left.
    closed spec fn view(&self) -> Seq<T> {
        self.first@ + self.second@
    }
}

impl<'a, T: Eq + Hash, S: BuildHasher> Clone for Union<'a, T, S> {
    /// An iterator that resumes from the same place, independently of this one.
    fn clone(&self) -> (r: Union<'a, T, S>)
        ensures
            r@ == self@,
            r.wf() == self.wf(),
            r.upper() == self.upper(),
    {
        Union { first: self.first.clone(), second: self.second.clone() }
    }
}

impl<'a, T: Eq + Hash, S: BuildHasher> Union<'a, T, S> {
    /// Well-formed: both parts are.
    pub closed spec fn wf(&self) -> bool {
        self.first.wf() && self.second.wf()
    }

    /// A bound on what is still to come: the sum of the two parts' bounds.
    pub closed spec fn upper(&self) -> nat {
        self.first@.len() + self.second.upper()
    }

    /// The next element, or `None` once every element has been yielded.
    pub fn next(&mut self) -> (r: Option<&'a T>)
        requires
            old(self).wf(),
            hash_model::<T, S>(),
        ensures
            final(self).wf(),
            final(self).upper() <= old(self).upper(),
            old(self)@.len() > 0 ==> r == Some(&old(self)@[0]) && final(self)@ == old(
                self,
            )@.drop_first(),
            old(self)@.len() == 0 ==> r is None && final(self)@ == old(self)@,
    {
        match self.first.next() {
            Some(elt) => {
                proof {
                    assert(self@ =~= old(self)@.drop_first());
                }
                Some(elt)
            },
            None => {
                proof {
                    assert(old(self)@ =~= old(self).second@);
                }
                let r = self.second.next();
                proof {
                    assert(self@ =~= self.second@);
                }
                r
            },
        }
    }

    /// Bounds on the number of elements still to come: none at least, and at most
    /// the sum of the two parts' bounds, which is absent when it overflows.
    pub fn size_hint(&self) -> (r: (usize, Option<usize>))
        requires
            self.wf(),
        ensures
            self@.len() <= self.upper(),
            r.0 == 0,
            r.1 == if self.upper() <= usize::MAX {
                Some(self.upper() as usize)
            } else {
                None::<usize>
            },
    {
        let (_, a) = self.first.size_hint();
        let (_, b) = self.second.size_hint();
        let upper = match (a, b) {
            (Some(x), Some(y)) => x.checked_add(y),
            _ => None,
        };
        (0, upper)
    }
}

/// Lazily yields the elements of one set that the other lacks, then those of
/// the other that the first lacks.
#[verifier::reject_recursive_types(T)]
#[verifier::reject_recursive_types(S)]
pub struct SymmetricDifference<'a, T, S> {
    first: Difference<'a, T, S>,
    second: Difference<'a, T, S>,
}

impl<'a, T, S> View for SymmetricDifference<'a, T, S> {
    type V = Seq<T>;

    /// The elements still to come, in order: what the first part has left,
    /// then what the second part has left.
    closed spec fn view(&self) -> Seq<T> {
        self.first@ + self.second@
    }
}

impl<'a, T: Eq + Hash, S: BuildHasher> Clone for SymmetricDifference<'a, T, S> {
    /// An iterator that resumes from the same place, independently of this one.
    fn clone(&self) -> (r: SymmetricDifference<'a, T, S>)
        ensures
            r@ == self@,
            r.wf() == self.wf(),
            r.upper() == self.upper(),
    {
        SymmetricDifference { first: self.first.clone(), second: self.second.clone() }
    }
}

impl<'a, T: Eq + Hash, S: BuildHasher> SymmetricDifference<'a, T, S> {
    /// Well-formed: both parts are.
    pub closed spec fn wf(&self) -> bool {
        self.first.wf() && self.second.wf()
    }

    /// A bound on what is still to come: the sum of the two parts' bounds.
    pub closed spec fn upper(&self) -> nat {
        self.first.upper() + self.second.upper()
    }

    /// The next element, or `None` once every element has been yielded.
    pub fn next(&mut self) -> (r: Option<&'a T>)
        requires
            old(self).wf(),
            hash_model::<T, S>(),
        ensures
            final(self).wf(),
            final(self).upper() <= old(self).upper(),
            old(self)@.len() > 0 ==> r == Some(&old(self)@[0]) && final(self)@ == old(
                self,
            )@.drop_first(),
            old(self)@.len() == 0 ==> r is None && final(self)@ == old(self)@,
    {
        match self.first.next() {
            Some(elt) => {
                proof {
                    assert(self@ =~= old(self)@.drop_first());
                }
                Some(elt)
            },
            None => {
                proof {
                    assert(old(self)@ =~= old(self).second@);
                }
                let r = self.second.next();
                proof {
                    assert(self@ =~= self.second@);
                }
                r
            },
        }
    }

    /// Bounds on the number of elements still to come: none at least, and at most
    /// the sum of the two parts' bounds, which is absent when it overflows.
    pub fn size_hint(&self) -> (r: (usize, Option<usize>))
        requires
            self.wf(),
        ensures
            self@.len() <= self.upper(),
            r.0 == 0,
            r.1 == if self.upper() <= usize::MAX {
                Some(self.upper() as usize)
            } else {
                None::<usize>
            },
    {
        let (_, a) = self.first.size_hint();
        let (_, b) = self.second.size_hint();
        let upper = match (a, b) {
            (Some(x), Some(y)) => x.checked_add(y),
            _ => None,
        };
        (0, upper)
    }
}

/// Two duplicate-free sequences whose item sets `sa` and `sb` share nothing
/// concatenate to a duplicate-free sequence whose items make up `sa + sb`.
proof fn lemma_concat_distinct<T>(a: Seq<T>, b: Seq<T>, sa: Set<T>, sb: Set<T>)
    requires
        a.no_duplicates(),
        b.no_duplicates(),
        a.to_set() == sa,
        b.to_set() == sb,
        sa.disjoint(sb),
    ensures
        (a + b).no_duplicates(),
        (a + b).to_set() == sa + sb,
{
    assert forall|i: int, j: int| 0 <= i < a.len() && 0 <= j < b.len() implies a[i] != b[j] by {
        assert(sa.contains(a[i]));
        assert(sb.contains(b[j]));
    }
    lemma_no_dup_in_concat(a, b);
    assert forall|x: T| (a + b).contains(x) <==> a.contains(x) || b.contains(x) by {
        if (a + b).contains(x) {
            let i = choose|i: int| 0 <= i < (a + b).len() && (a + b)[i] == x;
            if i < a.len() {
                assert(a[i] == x);
            } else {
                assert(b[i - a.len()] == x);
            }
        }
        if a.contains(x) {
            let i = choose|i: int| 0 <= i < a.len() && a[i] == x;
            assert((a + b)[i] == x);
        }
        if b.contains(x) {
            let i = choose|i: int| 0 <= i < b.len() && b[i] == x;
            assert((a + b)[i + a.len()] == x);
        }
    }
    assert((a + b).to_set() =~= sa + sb);
}

impl<T: Eq + Hash, S: BuildHasher> HashSet<T, S> {
    /// Lazily yields each element of this set that `other` lacks.
    pub fn difference<'a>(&'a self, other: &'a HashSet<T, S>) -> (r: Difference<'a, T, S>)
        requires
            self.wf(),
            other.wf(),
            hash_model::<T, S>(),
        ensures
            r.wf(),
            r@.to_set() == self@.difference(other@),
            r@.no_duplicates(),
    {
        let it = self.iter();
        let r = Difference::filter(it, other);
        proof {
            lemma_select(it@, other@, false);
            assert(r@.to_set() =~= self@.difference(other@));
        }
        r
    }

    /// Lazily yields each element of this set that `other` holds too.
    pub fn intersection<'a>(&'a self, other: &'a HashSet<T, S>) -> (r: Intersection<'a, T, S>)
        requires
            self.wf(),
            other.wf(),
            hash_model::<T, S>(),
        ensures
            r.wf(),
            r@.to_set() == self@.intersect(other@),
            r@.no_duplicates(),
    {
        let it = self.iter();
        let r = Intersection::filter(it, other);
        proof {
            lemma_select(it@, other@, true);
            assert(r@.to_set() =~= self@.intersect(other@));
        }
        r
    }

    /// Lazily yields every element of this set, then each element of `other`
    /// that this set lacks: each element of either set exactly once, those of
    /// this set first.
    pub fn union<'a>(&'a self, other: &'a HashSet<T, S>) -> (r: Union<'a, T, S>)
        requires
            self.wf(),
            other.wf(),
            hash_model::<T, S>(),
        ensures
            r.wf(),
            r@.to_set() == self@ + other@,
            r@.no_duplicates(),
            r@.subrange(0, self@.len() as int).to_set() == self@,
            r@.subrange(self@.len() as int, r@.len() as int).to_set() == other@.difference(self@),
    {
        let first = self.iter();
        let second = other.difference(self);
        proof {
            lemma_concat_distinct(first@, second@, self@, other@.difference(self@));
            assert(self@ + other@.difference(self@) =~= self@ + other@);
            assert((first@ + second@).subrange(0, first@.len() as int) =~= first@);
            assert((first@ + second@).subrange(first@.len() as int, (first@ + second@).len() as int)
                =~= second@);
        }
        Union { first, second }
    }

    /// Lazily yields the elements of this set that `other` lacks, then those of
    /// `other` that this set lacks, each exactly once.
    pub fn symmetric_difference<'a>(&'a self, other: &'a HashSet<T, S>) -> (r: SymmetricDifference<
        'a,
        T,
        S,
    >)
        requires
            self.wf(),
            other.wf(),
            hash_model::<T, S>(),
        ensures
            r.wf(),
            r@.to_set() == self@.difference(other@) + other@.difference(self@),
            r@.no_duplicates(),
            r@.subrange(0, self@.difference(other@).len() as int).to_set() == self@.difference(
                other@,
            ),
            r@.subrange(self@.difference(other@).len() as int, r@.len() as int).to_set()
                == other@.difference(self@),
    {
        let first = self.difference(other);
        let second = other.difference(self);
        proof {
            first@.unique_seq_to_set();
            assert((first@ + second@).subrange(0, first@.len() as int) =~= first@);
            assert((first@ + second@).subrange(first@.len() as int, (first@ + second@).len() as int)
                =~= second@);
            lemma_concat_distinct(
                first@,
                second@,
                self@.difference(other@),
                other@.difference(self@),
            );
        }
        SymmetricDifference { first, second }
    }
}

} // verus!

use hash_set::HashSet;
use std::collections::hash_map::RandomState;
use std::hash::{Hash, Hasher};

fn set_of(items: &[u64]) -> HashSet<u64> {
    HashSet::from_iter(items.to_vec())
}

fn sorted(mut v: Vec<u64>) -> Vec<u64> {
    v.sort();
    v
}

fn elements(s: &HashSet<u64>) -> Vec<u64> {
    let mut it = s.iter();
    let mut out = Vec::new();
    while let Some(x) = it.next() {
        out.push(*x);
    }
    sorted(out)
}

#[derive(Debug, Clone)]
struct Tagged {
    key: String,
    payload: String,
}

impl PartialEq for Tagged {
    fn eq(&self, other: &Tagged) -> bool {
        self.key == other.key
    }
}

impl Eq for Tagged {}

impl Hash for Tagged {
    fn hash<H: Hasher>(&self, state: &mut H) {
        self.key.hash(state);
    }
}

fn tagged(key: &str, payload: &str) -> Tagged {
    Tagged { key: key.to_string(), payload: payload.to_string() }
}

#[test]
fn operators_on_two_small_sets() {
    let mut s1: HashSet<u64> = HashSet::new();
    s1.insert(1);
    s1.insert(2);
    s1.insert(3);
    let mut s2: HashSet<u64> = HashSet::new();
    s2.insert(2);
    s2.insert(3);
    s2.insert(4);
    assert!(s1.sub(&s2).eq(&set_of(&[1])));
    assert!(s2.sub(&s1).eq(&set_of(&[4])));
    assert!(s1.bitand(&s2).eq(&set_of(&[2, 3])));
    assert!(s1.bitor(&s2).eq(&set_of(&[1, 2, 3, 4])));
    assert!(s1.bitxor(&s2).eq(&set_of(&[1, 4])));
    assert_eq!(elements(&s1.bitxor(&s2)), vec![1, 4]);
    assert_eq!(elements(&s1.bitor(&s2)), vec![1, 2, 3, 4]);
    assert_eq!(s1.len(), 3);
    assert_eq!(s2.len(), 3);
}

#[test]
fn replace_refreshes_payload() {
    let mut s: HashSet<Tagged> = HashSet::new();
    assert!(s.insert(tagged("k", "old")));
    let prior = s.replace(tagged("k", "new"));
    assert_eq!(prior.map(|t| t.payload), Some("old".to_string()));
    assert_eq!(s.len(), 1);
    assert_eq!(s.get(&tagged("k", "")).map(|t| t.payload.clone()), Some("new".to_string()));
}

#[test]
fn replace_on_absent_inserts() {
    let mut s: HashSet<Tagged> = HashSet::new();
    assert!(s.replace(tagged("a", "x")).is_none());
    assert_eq!(s.len(), 1);
    assert!(s.contains(&tagged("a", "y")));
}

#[test]
fn empty_set_relations() {
    let e: HashSet<u64> = HashSet::new();
    let e2: HashSet<u64> = HashSet::new();
    let other = set_of(&[5, 6]);
    assert!(e.is_subset(&e));
    assert!(e.is_superset(&e));
    assert!(e.is_disjoint(&e));
    assert!(e.is_subset(&other));
    assert!(other.is_superset(&e));
    assert!(e.is_disjoint(&other));
    assert!(other.is_disjoint(&e));
    assert!(!other.is_subset(&e));
    assert!(e.eq(&e2));
    assert!(!e.eq(&other));
}

#[test]
fn mutual_subset_matches_equality() {
    let a = set_of(&[1, 2, 3]);
    let b = set_of(&[3, 2, 1]);
    let c = set_of(&[1, 2]);
    let d = set_of(&[1, 2, 4]);
    assert!(a.is_subset(&b) && b.is_subset(&a));
    assert!(a.eq(&b));
    assert!(c.is_subset(&a) && !a.is_subset(&c));
    assert!(!a.eq(&c));
    assert!(!a.eq(&d));
    assert!(!a.is_subset(&d) && !d.is_subset(&a));
}

#[test]
fn union_size_counts_shared_once() {
    let a = set_of(&[1, 2, 3, 4]);
    let b = set_of(&[3, 4, 5]);
    let u = a.bitor(&b);
    let i = a.bitand(&b);
    assert_eq!(u.len(), a.len() + b.len() - i.len());
    assert_eq!(u.len(), 5);
    assert_eq!(i.len(), 2);
}

#[test]
fn intersection_and_symmetric_difference_split_union() {
    let a = set_of(&[1, 2, 3, 4]);
    let b = set_of(&[3, 4, 5, 6]);
    let i = a.bitand(&b);
    let x = a.bitxor(&b);
    assert!(i.is_disjoint(&x));
    let mut joined = elements(&i);
    joined.extend(elements(&x));
    assert_eq!(sorted(joined), elements(&a.bitor(&b)));
}

#[test]
fn inserting_present_element_changes_nothing() {
    let mut s = set_of(&[7, 8]);
    assert!(!s.insert(7));
    assert_eq!(s.len(), 2);
    let mut t: HashSet<Tagged> = HashSet::new();
    assert!(t.insert(tagged("k", "first")));
    assert!(!t.insert(tagged("k", "second")));
    assert_eq!(t.len(), 1);
    assert_eq!(t.get(&tagged("k", "")).map(|v| v.payload.clone()), Some("first".to_string()));
}

#[test]
fn round_trip_through_iteration() {
    let items = vec![9u64, 3, 27, 1, 81];
    let s: HashSet<u64> = HashSet::from_iter(items.clone());
    assert_eq!(s.len(), 5);
    assert_eq!(elements(&s), sorted(items));
}

#[test]
fn from_iter_drops_duplicates() {
    let s: HashSet<u64> = HashSet::from_iter(vec![2, 2, 5, 2, 5]);
    assert_eq!(s.len(), 2);
    assert_eq!(elements(&s), vec![2, 5]);
}

#[test]
fn drain_empties_and_yields_each_once() {
    let mut s = set_of(&[10, 20, 30]);
    let mut got = Vec::new();
    {
        let mut d = s.drain();
        assert_eq!(d.len(), 3);
        assert_eq!(d.size_hint(), (3, Some(3)));
        while let Some(x) = d.next() {
            got.push(x);
        }
        assert!(d.next().is_none());
        assert_eq!(d.len(), 0);
    }
    assert_eq!(sorted(got), vec![10, 20, 30]);
    assert_eq!(s.len(), 0);
    assert!(!s.contains(&10));
}

#[test]
fn drain_dropped_early_keeps_the_rest() {
    let mut s = set_of(&[1, 2, 3]);
    let first;
    {
        let mut d = s.drain();
        first = d.next().unwrap();
        assert_eq!(d.len(), 2);
    }
    assert_eq!(s.len(), 2);
    assert!(!s.contains(&first));
    let mut rest = elements(&s);
    rest.push(first);
    assert_eq!(sorted(rest), vec![1, 2, 3]);
}

#[test]
fn into_iter_yields_owned_elements() {
    let s = set_of(&[4, 5, 6]);
    let mut it = s.into_iter();
    assert_eq!(it.len(), 3);
    let mut got = Vec::new();
    while let Some(x) = it.next() {
        got.push(x);
    }
    assert_eq!(it.size_hint(), (0, Some(0)));
    assert!(it.next().is_none());
    assert_eq!(sorted(got), vec![4, 5, 6]);
}

#[test]
fn contains_get_take_remove() {
    let mut s = set_of(&[1, 2, 3]);
    assert!(s.contains(&2));
    assert!(!s.contains(&9));
    assert_eq!(s.get(&3), Some(&3));
    assert_eq!(s.get(&9), None);
    assert_eq!(s.take(&3), Some(3));
    assert_eq!(s.take(&3), None);
    assert!(s.remove(&1));
    assert!(!s.remove(&1));
    assert_eq!(elements(&s), vec![2]);
}

#[test]
fn take_hands_back_stored_element() {
    let mut s: HashSet<Tagged> = HashSet::new();
    s.insert(tagged("k", "stored"));
    let t = s.take(&tagged("k", "probe"));
    assert_eq!(t.map(|v| v.payload), Some("stored".to_string()));
    assert_eq!(s.len(), 0);
}

#[test]
fn clear_and_capacity() {
    let mut s: HashSet<u64> = HashSet::with_capacity(16);
    assert_eq!(s.len(), 0);
    assert!(s.capacity() >= 16);
    s.insert(1);
    s.insert(2);
    s.reserve(100);
    assert!(s.capacity() >= 102);
    assert_eq!(elements(&s), vec![1, 2]);
    s.shrink_to_fit();
    assert_eq!(elements(&s), vec![1, 2]);
    s.clear();
    assert_eq!(s.len(), 0);
    assert!(!s.contains(&1));
}

#[test]
fn custom_hasher_constructors() {
    let mut s: HashSet<u64, RandomState> = HashSet::with_hasher(RandomState::new());
    assert_eq!(s.len(), 0);
    s.insert(3);
    let _ = s.hasher();
    let mut t: HashSet<u64, RandomState> = HashSet::with_capacity_and_hasher(8, RandomState::new());
    assert!(t.capacity() >= 8);
    t.insert(3);
    assert!(s.eq(&t));
    let d: HashSet<u64, RandomState> = HashSet::default();
    assert_eq!(d.len(), 0);
}

#[test]
fn extend_by_value_and_by_reference() {
    let mut s = set_of(&[1]);
    s.extend(vec![2, 3, 1]);
    assert_eq!(elements(&s), vec![1, 2, 3]);
    let more = [3u64, 4, 5];
    s.extend_from_refs(more.iter().collect());
    assert_eq!(elements(&s), vec![1, 2, 3, 4, 5]);
}

#[test]
fn lazy_difference_and_intersection() {
    let a = set_of(&[1, 2, 3, 4]);
    let b = set_of(&[2, 4, 6]);
    let mut d = a.difference(&b);
    assert_eq!(d.size_hint(), (0, Some(4)));
    let mut got = Vec::new();
    while let Some(x) = d.next() {
        got.push(*x);
    }
    assert!(d.next().is_none());
    assert_eq!(sorted(got), vec![1, 3]);
    let mut i = a.intersection(&b);
    let mut got = Vec::new();
    while let Some(x) = i.next() {
        got.push(*x);
    }
    assert!(i.next().is_none());
    assert_eq!(sorted(got), vec![2, 4]);
    assert_eq!(i.size_hint(), (0, Some(0)));
}

#[test]
fn lazy_union_and_symmetric_difference() {
    let a = set_of(&[1, 2, 3]);
    let b = set_of(&[3, 4]);
    let mut u = a.union(&b);
    assert_eq!(u.size_hint(), (0, Some(5)));
    let mut got = Vec::new();
    while let Some(x) = u.next() {
        got.push(*x);
    }
    assert!(u.next().is_none());
    assert_eq!(sorted(got), vec![1, 2, 3, 4]);
    let mut x = a.symmetric_difference(&b);
    assert_eq!(x.size_hint(), (0, Some(5)));
    let mut got = Vec::new();
    while let Some(v) = x.next() {
        got.push(*v);
    }
    assert_eq!(sorted(got), vec![1, 2, 4]);
    assert_eq!(x.size_hint(), (0, Some(0)));
}

#[test]
fn union_lists_elements_of_first_set_first() {
    let a = set_of(&[1, 2]);
    let b = set_of(&[2, 3]);
    let mut u = a.union(&b);
    let mut got = Vec::new();
    while let Some(x) = u.next() {
        got.push(*x);
    }
    assert_eq!(got.len(), 3);
    assert_eq!(sorted(got[..2].to_vec()), vec![1, 2]);
    assert_eq!(got[2], 3);
}

#[test]
fn plain_iterator_is_exact_and_fused() {
    let s = set_of(&[5, 6, 7]);
    let mut it = s.iter();
    assert_eq!(it.len(), 3);
    assert_eq!(it.size_hint(), (3, Some(3)));
    it.next();
    assert_eq!(it.len(), 2);
    it.next();
    it.next();
    assert!(it.next().is_none());
    assert!(it.next().is_none());
    assert_eq!(it.len(), 0);
}

fn shorten_set<'new>(v: HashSet<&'static str>) -> HashSet<&'new str> {
    v
}

fn shorten_iter<'a, 'new>(v: hash_set::Iter<'a, &'static str>) -> hash_set::Iter<'a, &'new str> {
    v
}

fn shorten_into_iter<'new>(v: hash_set::IntoIter<&'static str>) -> hash_set::IntoIter<&'new str> {
    v
}

fn shorten_difference<'a, 'new>(
    v: hash_set::Difference<'a, &'static str, RandomState>,
) -> hash_set::Difference<'a, &'new str, RandomState> {
    v
}

fn shorten_intersection<'a, 'new>(
    v: hash_set::Intersection<'a, &'static str, RandomState>,
) -> hash_set::Intersection<'a, &'new str, RandomState> {
    v
}

fn shorten_union<'a, 'new>(
    v: hash_set::Union<'a, &'static str, RandomState>,
) -> hash_set::Union<'a, &'new str, RandomState> {
    v
}

fn shorten_symmetric_difference<'a, 'new>(
    v: hash_set::SymmetricDifference<'a, &'static str, RandomState>,
) -> hash_set::SymmetricDifference<'a, &'new str, RandomState> {
    v
}

#[test]
fn handles_narrow_to_shorter_lifetimes() {
    let mut a: HashSet<&'static str> = HashSet::new();
    a.insert("x");
    a.insert("y");
    let mut b: HashSet<&'static str> = HashSet::new();
    b.insert("y");
    assert_eq!(shorten_iter(a.iter()).len(), 2);
    let mut d = shorten_difference(a.difference(&b));
    assert_eq!(d.next(), Some(&"x"));
    let mut i = shorten_intersection(a.intersection(&b));
    assert_eq!(i.next(), Some(&"y"));
    let mut u = shorten_union(a.union(&b));
    assert!(u.next().is_some());
    let mut x = shorten_symmetric_difference(a.symmetric_difference(&b));
    assert_eq!(x.next(), Some(&"x"));
    let mut c = a.clone();
    assert_eq!(c.drain().len(), 2);
    assert_eq!(shorten_into_iter(b.clone().into_iter()).len(), 1);
    let s = shorten_set(a);
    assert_eq!(s.len(), 2);
}

#[test]
fn clones_are_independent() {
    let a = set_of(&[1, 2, 3]);
    let mut b = a.clone();
    b.insert(4);
    assert_eq!(a.len(), 3);
    assert_eq!(b.len(), 4);
    let mut it = a.iter();
    it.next();
    let mut again = it.clone();
    assert_eq!(it.len(), 2);
    let mut first = Vec::new();
    while let Some(x) = it.next() {
        first.push(*x);
    }
    let mut second = Vec::new();
    while let Some(x) = again.next() {
        second.push(*x);
    }
    assert_eq!(first, second);
    let other = set_of(&[2]);
    let d = a.difference(&other);
    let mut d2 = d.clone();
    let mut n = 0;
    while d2.next().is_some() {
        n += 1;
    }
    assert_eq!(n, 2);
    assert_eq!(d.size_hint(), (0, Some(3)));
}

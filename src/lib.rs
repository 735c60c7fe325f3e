//! A hash set built on a map from each element to the unit value, with
//! membership, insertion, removal, lookups that hand back the stored element,
//! and set algebra both as lazy iterators and as freshly built sets.

pub mod iter;
pub mod laws;
pub mod map_calls;
pub mod ops;
pub mod set;

pub use iter::{Difference, Drain, Intersection, IntoIter, Iter, SymmetricDifference, Union};
pub use set::HashSet;

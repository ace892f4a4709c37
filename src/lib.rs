//! A hash table that resolves collisions by separate chaining, with a fixed
//! number of buckets chosen at construction.
use vstd::prelude::*;

pub mod chains;
pub mod hashmap;
pub mod key;
pub mod laws;

pub use crate::hashmap::{HashMap, HashMapItem, HashMapIterator};
pub use crate::key::HashKey;

verus! {

} // verus!

//! A hash table with separate chaining: a growable array of buckets, each a
//! short vector of key-value pairs, with an entry interface for
//! insert-or-update and a cursor over the stored pairs.
use vstd::prelude::*;

pub mod entry;
pub mod key;
pub mod laws;
pub mod table;

pub use key::HashKey;
pub use entry::{Entry, OccupiedEntry, VacantEntry};
pub use table::{HashMap, Iter};

verus! {

} // verus!

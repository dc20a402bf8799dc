//! A hash map with separate chaining, and a hash set built on it.
//!
//! [`hash_map::HashMap`] is the table; [`hash_set::HashSet`] wraps it.
//! [`bucket`] holds the chaining unit. [`chain`] and [`model`] are the
//! mathematical model that the executable code is proved against, and
//! [`laws`] states what that model means as a map.

pub mod bucket;
pub mod chain;
pub mod hash_map;
pub mod hash_set;
pub mod hashing;
pub mod laws;
pub mod model;

//! A hash table with one slot per hash value and no probing, keyed through
//! a byte-oriented hash of the FNV-1a family.
//!
//! - `fnv`: the hash of a byte sequence.
//! - `hashable`: the trait of keys, with byte slices and strings as keys.
//! - `bucket`: one slot.
//! - `model`: the contents of a table as a mathematical value, and its
//!   operations as functions.
//! - `table`: the table itself.
//! - `laws`: what holds of the operations taken together.

pub mod bucket;
pub mod fnv;
pub mod hashable;
pub mod laws;
pub mod model;
pub mod table;

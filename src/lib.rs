//! An open-addressing hash table with linear probing, tombstone deletion and
//! doubling growth, verified against a map model.

pub mod key;
pub mod map;
pub mod laws;

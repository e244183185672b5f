//! An open-addressed hash table from 64-bit keys to small copyable values,
//! whose collision chains are rings threaded through the bucket array itself.

pub mod laws;
pub mod layout;
pub mod probe;
pub mod rings;
pub mod table;

pub use layout::{MAX_CAPACITY, MIN_CAPACITY};
pub use rings::Bucket;
pub use table::{BucketState, HashTable};

//! Indexes: the mapping from a key to the positions that hold it.
pub mod hash;
pub mod index;
pub mod map;
pub mod uint;
pub mod store;

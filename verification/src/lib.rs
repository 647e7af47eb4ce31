//! Secondary-index lookups for in-memory collections.
//!
//! An index maps a key, derived from each stored item, to the positions at
//! which items with that key are held. A key holds at most one position or
//! an ascending list of them. The index is kept in a hash table, for keys
//! that are names, or in an array that the key itself addresses. Read-only
//! views show a chosen part of an index, and the collections keep an index
//! in step with their items.
pub mod collections;
pub mod lookup;

pub use collections::list::ro::LkupList;
pub use collections::list::rw::LkupVec;
pub use lookup::hash::HashLookup;
pub use lookup::index::IndexLookup;
pub use lookup::store::Lookup;

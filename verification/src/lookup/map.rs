//! The hashed index under its other names.
use crate::lookup::hash::HashStore;
use crate::lookup::hash::HashStoreExt;
use vstd::prelude::*;

verus! {

/// The hashed index.
pub type MapLookup<P> = HashStore<P>;

/// A hashed index with at most one position per name.
pub type UniqueMapLookup = HashStore<Option<usize>>;

/// A hashed index with any number of positions per name.
pub type MultiMapLookup = HashStore<Vec<usize>>;

/// What the hashed index offers beyond the common read side.
pub type MapLookupExt<'a, P> = HashStoreExt<'a, P>;

/// The hashed index.
pub type MapIndex<P> = HashStore<P>;

/// A hashed index with at most one position per name.
pub type UniqueMapIndex = HashStore<Option<usize>>;

/// A hashed index with any number of positions per name.
pub type MultiMapIndex = HashStore<Vec<usize>>;

} // verus!

//! Collections that change, with an index that follows them.
pub mod list;

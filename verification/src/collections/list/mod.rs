//! Lists with an index.
pub mod ro;
pub mod rw;

//! Maps with an index: the items stand at numbers of their own choosing
//! rather than in a row.
use vstd::prelude::*;
use crate::lookup::store::item::Itemer;
use std::collections::HashMap;

pub mod ro;
pub mod rw;

verus! {

impl<V> Itemer for HashMap<usize, V> {
    type Output = V;

    open spec fn item_at(&self, pos: usize) -> Option<V> {
        if self@.contains_key(pos) {
            Some(self@[pos])
        } else {
            None
        }
    }

    fn item(&self, pos: &usize) -> (found: &V) {
        broadcast use vstd::std_specs::hash::group_hash_axioms;

        self.get(pos).unwrap()
    }

    fn find(&self, pos: &usize) -> (found: Option<&V>) {
        broadcast use vstd::std_specs::hash::group_hash_axioms;

        self.get(pos)
    }
}

} // verus!

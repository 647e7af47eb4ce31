//! Listing all positions of an index.
use vstd::prelude::*;

verus! {

/// Hands out every position that an index or a view knows.
pub trait Positions {
    /// Whether `all` lists every known position: key by key, each key once.
    spec fn lists(&self, all: Seq<usize>) -> bool;

    /// Every known position, key by key.
    fn positions(&self) -> (all: Vec<usize>)
        ensures
            self.lists(all@),
    ;
}

impl<R: Positions> Positions for crate::lookup::store::view::View<R> {
    open spec fn lists(&self, all: Seq<usize>) -> bool {
        self.retriever().lists(all)
    }

    fn positions(&self) -> (all: Vec<usize>) {
        self.lookup().positions()
    }
}

} // verus!

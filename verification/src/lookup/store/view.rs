//! Views: read-only parts of an index.
use vstd::prelude::*;
use crate::lookup::store::Retriever;

verus! {

/// A read-only part of an index: the entries of the keys that were asked for
/// when it was made, as they were then.
pub struct View<R>(R);

impl<R> View<R> {
    /// What the view reads from.
    pub closed spec fn retriever(&self) -> &R {
        &self.0
    }

    /// The view that reads from `retriever`.
    pub fn new(retriever: R) -> (view: Self)
        ensures
            *view.retriever() == retriever,
    {
        View(retriever)
    }

    /// What the view reads from.
    pub fn lookup(&self) -> (r: &R)
        ensures
            r == self.retriever(),
    {
        &self.0
    }
}

impl<Q: Copy, R: Retriever<Q>> Retriever<Q> for View<R> {
    open spec fn positions_of(&self, key: Q) -> Seq<usize> {
        self.retriever().positions_of(key)
    }

    fn key_exist(&self, key: Q) -> (found: bool) {
        self.0.key_exist(key)
    }

    fn pos_by_key(&self, key: Q) -> (s: &[usize]) {
        self.0.pos_by_key(key)
    }
}

impl<R> core::ops::Deref for View<R> {
    type Target = R;

    /// What the view reads from.
    fn deref(&self) -> (r: &R)
        ensures
            r == self.retriever(),
    {
        &self.0
    }
}

} // verus!

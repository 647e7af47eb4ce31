//! Collections that keep an index in step with their items.
pub mod list;
pub mod map;
pub mod ro;
pub mod rw;

use vstd::prelude::*;
use crate::lookup::store::item::found_at;
use crate::lookup::store::item::gather;
use crate::lookup::store::item::pointed_to;
use crate::lookup::store::item::Itemer;
use crate::lookup::store::positions_of_all;
use crate::lookup::store::Lookup;
use crate::lookup::store::Retriever;

verus! {

/// Reads the items of a collection through an index or a view of one.
pub struct Retrieve<'a, R, I> {
    retriever: R,
    items: &'a I,
}

impl<'a, R, I> Retrieve<'a, R, I> {
    /// The index or view that is read.
    pub closed spec fn retriever(&self) -> &R {
        &self.retriever
    }

    /// The collection that the positions refer to.
    pub closed spec fn source(&self) -> &I {
        self.items
    }
}

impl<'a, R, I: Itemer> Retrieve<'a, R, I> {
    /// Reads `items` through `retriever`.
    pub fn new(retriever: R, items: &'a I) -> (r: Self)
        ensures
            *r.retriever() == retriever,
            r.source() == items,
    {
        Retrieve { retriever, items }
    }

    /// The index or view that is read.
    pub fn lookup(&self) -> (r: &R)
        ensures
            r == self.retriever(),
    {
        &self.retriever
    }

    /// The items at every position that is known, key by key.
    pub fn items(&self) -> (found: Vec<&'a I::Output>) where R: crate::lookup::store::listing::Positions
        ensures
            exists|all: Seq<usize>| #[trigger]
                self.retriever().lists(all) && pointed_to(found@) == found_at(self.source(), all),
    {
        let all: Vec<usize> = self.retriever.positions();
        let found = gather(self.items, all.as_slice());
        assert(self.retriever().lists(all@) && pointed_to(found@) == found_at(
            self.source(),
            all@,
        ));
        found
    }

    /// Whether an item is known for `key`.
    pub fn contains_key<Q: Copy>(&self, key: Q) -> (found: bool) where R: Retriever<Q>
        ensures
            found <==> self.retriever().positions_of(key).len() > 0,
    {
        self.retriever.key_exist(key)
    }

    /// The items that are known for `key`.
    pub fn get_by_key<Q: Copy>(&self, key: Q) -> (found: Vec<&'a I::Output>) where R: Retriever<Q>
        ensures
            pointed_to(found@) == found_at(self.source(), self.retriever().positions_of(key)),
    {
        gather(self.items, self.retriever.pos_by_key(key))
    }

    /// The items that are known for any of `keys`, key by key. An item
    /// comes once for each time that its key is given.
    pub fn get_by_many_keys<Q: Copy>(&self, keys: Vec<Q>) -> (found: Vec<&'a I::Output>) where
        R: Retriever<Q>,

        ensures
            pointed_to(found@) == found_at(
                self.source(),
                positions_of_all(self.retriever(), keys@),
            ),
    {
        let all: Vec<usize> = self.retriever.pos_by_many_keys(keys).collect();
        gather(self.items, all.as_slice())
    }
}

impl<'a, R, I> core::ops::Deref for Retrieve<'a, R, I> {
    type Target = R;

    /// The index or view that is read.
    fn deref(&self) -> (r: &R)
        ensures
            r == self.retriever(),
    {
        &self.retriever
    }
}

} // verus!

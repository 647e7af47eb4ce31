//! A list and a map that make their own index and are read through `lkup`.
use vstd::prelude::*;
use crate::collections::list::ro::indexes;
use crate::collections::list::ro::keyed_by;
use crate::collections::list::ro::LkupList;
use crate::collections::map::ro::LkupHashMap;
use crate::collections::Retrieve;
use crate::lookup::store::position::PositionError;
use crate::lookup::store::Store;
use crate::lookup::store::ViewCreator;
use std::collections::HashMap;

verus! {

/// A list of items with an index of the kind `S` over them.
pub struct LVec<S, T> {
    list: LkupList<S, T>,
}

impl<S, T> LVec<S, T> {
    /// The items and their index.
    pub closed spec fn list(&self) -> &LkupList<S, T> {
        &self.list
    }
}

impl<S: Store, T> LVec<S, T> {
    /// The list of `items`, indexed by the keys that `field` gives. The
    /// index is made with room for as many keys as there are items. Where it
    /// refuses a position, the error is handed on.
    pub fn new<F: Fn(&T) -> S::Key>(field: F, items: Vec<T>) -> (r: Result<Self, PositionError>)
        requires
            forall|item: &T| call_requires(field, (item,)),
        ensures
            r is Ok ==> {
                &&& r.unwrap().list().well_formed()
                &&& r.unwrap().list().items() == items@
                &&& exists|keys: Seq<S::Key>, empty: S|
                    {
                        &&& #[trigger] keyed_by(field, items@, keys)
                        &&& empty.well_formed()
                        &&& forall|k: S::Key| (#[trigger] empty.held(&k)).len() == 0
                        &&& #[trigger] indexes(&empty, r.unwrap().list().store(), keys, items@.len())
                    }
            },
            r is Err ==> exists|keys: Seq<S::Key>, n: nat, empty: S, reached: S|
                {
                    &&& n < items@.len()
                    &&& keys.len() == n + 1
                    &&& #[trigger] keyed_by(field, items@.take(n as int + 1), keys)
                    &&& empty.well_formed()
                    &&& forall|k: S::Key| (#[trigger] empty.held(&k)).len() == 0
                    &&& reached.well_formed()
                    &&& #[trigger] indexes(&empty, &reached, keys, n)
                    &&& reached.verdict(&keys[n as int], n as usize) == Err::<(), PositionError>(
                        r->Err_0,
                    )
                },
    {
        let store: S = S::with_capacity(items.len());
        match LkupList::new(store, field, items) {
            Ok(list) => Ok(LVec { list }),
            Err(e) => Err(e),
        }
    }

    /// The read side: the items, looked up through the index.
    pub fn lkup(&self) -> (r: Retrieve<'_, &S, Vec<T>>)
        ensures
            *r.retriever() == self.list().store(),
            r.source() == self.list().items_vec(),
    {
        Retrieve::new(self.list.store_ref(), self.list.items_ref())
    }

    /// A view of the entries of `keys`, over the same items.
    pub fn create_lkup_view<'a>(&'a self, keys: Vec<<S as ViewCreator<'a>>::Key>) -> (view: Retrieve<
        'a,
        crate::lookup::store::view::View<<S as ViewCreator<'a>>::Retriever>,
        Vec<T>,
    >) where S: ViewCreator<'a>
        ensures
            self.list().store().shows(view.retriever(), keys@),
            view.source() == self.list().items_vec(),
    {
        self.list.create_lkup_view(keys)
    }
}

impl<S, T> core::ops::Deref for LVec<S, T> {
    type Target = Vec<T>;

    /// The items.
    fn deref(&self) -> (items: &Vec<T>)
        ensures
            items == self.list().items_vec(),
    {
        &self.list
    }
}

/// A map of items, each at a number, with an index of the kind `S` over
/// them. The positions in the index are the numbers.
pub struct LHashMap<S, V> {
    map: LkupHashMap<S, V>,
}

impl<S, V> LHashMap<S, V> {
    /// The items and their index.
    pub closed spec fn map(&self) -> &LkupHashMap<S, V> {
        &self.map
    }
}

impl<S: Store, V> LHashMap<S, V> {
    /// The map of `items`, indexed by the keys that `field` gives. The
    /// index is made with room for as many keys as there are items. Where it
    /// refuses a position, the error is handed on.
    pub fn new<F: Fn(&V) -> S::Key>(field: F, items: HashMap<usize, V>) -> (r: Result<
        Self,
        PositionError,
    >)
        requires
            forall|item: &V| call_requires(field, (item,)),
        ensures
            exists|empty: S|
                {
                    &&& #[trigger] empty.well_formed()
                    &&& forall|k: S::Key| (#[trigger] empty.held(&k)).len() == 0
                    &&& LkupHashMap::indexed_from(
                        &empty,
                        field,
                        items@,
                        match r {
                            Ok(made) => Ok(*made.map()),
                            Err(e) => Err(e),
                        },
                    )
                },
            r is Ok ==> *r.unwrap().map().items_map() == items,
    {
        let store: S = S::with_capacity(items.len());
        match LkupHashMap::build(store, &field, items) {
            Ok(map) => {
                let made = LHashMap { map };
                proof {
                    assert(store.well_formed());
                    assert(LkupHashMap::indexed_from(
                        &store,
                        field,
                        items@,
                        Ok::<LkupHashMap<S, V>, PositionError>(*made.map()),
                    ));
                }
                Ok(made)
            },
            Err(e) => {
                proof {
                    assert(store.well_formed());
                    assert(LkupHashMap::indexed_from(
                        &store,
                        field,
                        items@,
                        Err::<LkupHashMap<S, V>, PositionError>(e),
                    ));
                }
                Err(e)
            },
        }
    }

    /// The read side: the items, looked up through the index.
    pub fn lkup(&self) -> (r: Retrieve<'_, &S, HashMap<usize, V>>)
        ensures
            *r.retriever() == self.map().store(),
            r.source() == self.map().items_map(),
    {
        Retrieve::new(self.map.store_ref(), self.map.items_ref())
    }

    /// A view of the entries of `keys`, over the same items.
    pub fn create_lkup_view<'a>(&'a self, keys: Vec<<S as ViewCreator<'a>>::Key>) -> (view: Retrieve<
        'a,
        crate::lookup::store::view::View<<S as ViewCreator<'a>>::Retriever>,
        HashMap<usize, V>,
    >) where S: ViewCreator<'a>
        ensures
            self.map().store().shows(view.retriever(), keys@),
            view.source() == self.map().items_map(),
    {
        self.map.create_lkup_view(keys)
    }
}

impl<S, V> core::ops::Deref for LHashMap<S, V> {
    type Target = HashMap<usize, V>;

    /// The items.
    fn deref(&self) -> (items: &HashMap<usize, V>)
        ensures
            items == self.map().items_map(),
    {
        &self.map
    }
}

} // verus!

//! A list that makes its own index, grows and changes, and is read through
//! `lkup`.
use vstd::prelude::*;
use crate::collections::list::ro::indexes;
use crate::collections::list::ro::keyed_by;
use crate::collections::list::ro::LkupList;
use crate::collections::list::rw::LkupVec;
use crate::collections::Retrieve;
use crate::lookup::store::position::PositionError;
use crate::lookup::store::same_held;
use crate::lookup::store::stored_under;
use crate::lookup::store::Store;
use crate::lookup::store::ViewCreator;

verus! {

/// A growable list of items with an index of the kind `S` over them. The key
/// of an item is what `field` gives for it.
pub struct LVec<S, T, F> {
    inner: LkupVec<S, F, T>,
}

impl<S: Store, T, F: Fn(&T) -> S::Key> LVec<S, T, F> {
    /// The list with its index and what gives the keys.
    pub closed spec fn inner(&self) -> &LkupVec<S, F, T> {
        &self.inner
    }

    /// The index is as its operations keep it, and every item has a key.
    pub open spec fn well_formed(&self) -> bool {
        self.inner().well_formed()
    }

    /// The list of `items`, indexed by the keys that `field` gives. The
    /// index is made with room for as many keys as there are items. Where it
    /// refuses a position, the error is handed on.
    pub fn from_iter(field: F, items: Vec<T>) -> (r: Result<Self, PositionError>)
        requires
            forall|item: &T| call_requires(field, (item,)),
        ensures
            r is Ok ==> {
                &&& r.unwrap().well_formed()
                &&& r.unwrap().inner().field() == field
                &&& r.unwrap().inner().items() == items@
                &&& exists|keys: Seq<S::Key>, empty: S|
                    {
                        &&& #[trigger] keyed_by(field, items@, keys)
                        &&& empty.well_formed()
                        &&& forall|k: S::Key| (#[trigger] empty.held(&k)).len() == 0
                        &&& #[trigger] indexes(&empty, r.unwrap().inner().store(), keys, items@.len())
                    }
            },
            r is Err ==> exists|keys: Seq<S::Key>, n: nat, empty: S, reached: S|
                {
                    &&& n < items@.len()
                    &&& keys.len() == n + 1
                    &&& #[trigger] keyed_by(field, items@.take(n as int + 1), keys)
                    &&& empty.well_formed()
                    &&& forall|k: S::Key| (#[trigger] empty.held(&k)).len() == 0
                    &&& reached.well_formed()
                    &&& #[trigger] indexes(&empty, &reached, keys, n)
                    &&& reached.verdict(&keys[n as int], n as usize) == Err::<(), PositionError>(
                        r->Err_0,
                    )
                },
    {
        let store: S = S::with_capacity(items.len());
        match LkupList::build(store, &field, items) {
            Ok(list) => {
                let made = LVec { inner: LkupVec::from_list(field, list) };
                proof {
                    let keys = choose|keys: Seq<S::Key>| #[trigger]
                        keyed_by(field, items@, keys) && indexes(
                            &store,
                            list.store(),
                            keys,
                            items@.len(),
                        );
                    assert(made.inner().field() == field);
                    assert(made.inner().store() == list.store());
                    assert(made.well_formed());
                    assert(keyed_by(field, items@, keys) && indexes(
                        &store,
                        made.inner().store(),
                        keys,
                        items@.len(),
                    ));
                }
                Ok(made)
            },
            Err(e) => Err(e),
        }
    }

    /// Appends `item` and stores its position under its key. Where the index
    /// refuses, nothing changes.
    pub fn push(&mut self, item: T) -> (r: Result<usize, PositionError>)
        requires
            old(self).well_formed(),
        ensures
            final(self).well_formed(),
            final(self).inner().field() == old(self).inner().field(),
            exists|key: S::Key|
                {
                    &&& #[trigger] old(self).inner().is_key_of(&item, &key)
                    &&& match r {
                        Ok(pos) => {
                            &&& pos == old(self).inner().items().len()
                            &&& old(self).inner().store().verdict(&key, pos) is Ok
                            &&& final(self).inner().items() == old(self).inner().items().push(item)
                            &&& stored_under(
                                old(self).inner().store(),
                                final(self).inner().store(),
                                &key,
                                pos,
                            )
                        },
                        Err(e) => {
                            &&& old(self).inner().store().verdict(
                                &key,
                                old(self).inner().items().len() as usize,
                            ) == Err::<(), PositionError>(e)
                            &&& final(self).inner().items() == old(self).inner().items()
                            &&& same_held(old(self).inner().store(), final(self).inner().store())
                        },
                    }
                },
    {
        self.inner.push(item)
    }

    /// Lets `update` change the item at `pos` and moves its position to the
    /// item's new key. Hands out the changed item, or nothing where there is
    /// no item at `pos`.
    pub fn update<U: Fn(&mut T)>(&mut self, pos: usize, update: U) -> (r: Result<
        Option<&T>,
        PositionError,
    >)
        requires
            old(self).well_formed(),
            forall|item: &mut T| call_requires(update, (item,)),
        ensures
            final(self).well_formed(),
            LkupVec::changed_at(
                old(self).inner(),
                final(self).inner(),
                pos,
                match r {
                    Ok(_) => None,
                    Err(e) => Some(e),
                },
            ),
            r is Ok ==> r == Ok::<Option<&T>, PositionError>(
                if pos < old(self).inner().items().len() {
                    Some(&final(self).inner().items()[pos as int])
                } else {
                    None
                },
            ),
            pos < old(self).inner().items().len() ==> exists|item: &mut T|
                {
                    &&& *item == old(self).inner().items()[pos as int]
                    &&& *final(item) == final(self).inner().items()[pos as int]
                    &&& #[trigger] call_ensures(update, (item,), ())
                },
    {
        self.inner.update(pos, update)
    }

    /// The read side: the items, looked up through the index.
    pub fn lkup(&self) -> (r: Retrieve<'_, &S, Vec<T>>)
        ensures
            *r.retriever() == self.inner().store(),
            r.source() == self.inner().list().items_vec(),
    {
        Retrieve::new(self.inner.list_ref().store_ref(), self.inner.list_ref().items_ref())
    }

    /// A view of the entries of `keys`, over the same items.
    pub fn create_lkup_view<'a>(&'a self, keys: Vec<<S as ViewCreator<'a>>::Key>) -> (view: Retrieve<
        'a,
        crate::lookup::store::view::View<<S as ViewCreator<'a>>::Retriever>,
        Vec<T>,
    >) where S: ViewCreator<'a>
        ensures
            self.inner().store().shows(view.retriever(), keys@),
            view.source() == self.inner().list().items_vec(),
    {
        self.inner.list_ref().create_lkup_view(keys)
    }
}

} // verus!

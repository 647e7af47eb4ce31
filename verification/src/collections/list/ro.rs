//! A list that is read through an index and never changes.
use vstd::prelude::*;
use crate::lookup::store::item::found_at;
use crate::lookup::store::item::gather;
use crate::lookup::store::item::pointed_to;
use crate::collections::Retrieve;
use crate::lookup::store::position::PositionError;
use crate::lookup::store::position::with_pos;
use crate::lookup::store::positions_of_all;
use crate::lookup::store::Lookup;
use crate::lookup::store::Retriever;
use crate::lookup::store::Store;
use crate::lookup::store::ViewCreator;

verus! {

/// Whether `keys` are keys that `field` gives for `items`, one for each.
pub open spec fn keyed_by<T, K, F: Fn(&T) -> K>(field: F, items: Seq<T>, keys: Seq<K>) -> bool {
    &&& keys.len() == items.len()
    &&& forall|p: int| 0 <= p < items.len() ==> call_ensures(field, (&items[p],), #[trigger] keys[p])
}

/// What is held under `key` once the positions below `n` have been stored
/// under their `keys`, one after the other, starting from `held`.
pub open spec fn held_after<S: Store>(held: Seq<usize>, key: S::Key, keys: Seq<S::Key>, n: nat) -> Seq<
    usize,
>
    decreases n,
{
    if n == 0 {
        held
    } else {
        let before = held_after::<S>(held, key, keys, (n - 1) as nat);
        if S::same_key(&key, &keys[n - 1]) {
            with_pos(before, (n - 1) as usize)
        } else {
            before
        }
    }
}

/// Whether `end` is `start` with the positions below `n` stored under their
/// `keys`.
pub open spec fn indexes<S: Store>(start: &S, end: &S, keys: Seq<S::Key>, n: nat) -> bool {
    forall|k: S::Key| #[trigger] end.held(&k) == held_after::<S>(start.held(&k), k, keys, n)
}

/// What is held after the first `n` positions depends on the first `n` keys
/// only.
pub proof fn lemma_held_after_prefix<S: Store>(
    held: Seq<usize>,
    key: S::Key,
    keys: Seq<S::Key>,
    more: Seq<S::Key>,
    n: nat,
)
    requires
        n <= keys.len() <= more.len(),
        forall|p: int| 0 <= p < keys.len() ==> keys[p] == more[p],
    ensures
        held_after::<S>(held, key, keys, n) == held_after::<S>(held, key, more, n),
    decreases n,
{
    if n > 0 {
        lemma_held_after_prefix::<S>(held, key, keys, more, (n - 1) as nat);
    }
}

/// A list of items with an index over them.
#[derive(Debug, Clone)]
pub struct LkupList<S, T> {
    store: S,
    items: Vec<T>,
}

impl<S, T> LkupList<S, T> {
    /// The index.
    pub closed spec fn store(&self) -> &S {
        &self.store
    }

    /// The list of the items.
    pub closed spec fn items_vec(&self) -> &Vec<T> {
        &self.items
    }

    /// The items, each at its position.
    pub open spec fn items(&self) -> Seq<T> {
        self.items_vec()@
    }
}

impl<S: Store, T> LkupList<S, T> {
    /// The list of `items` with `store` for its index, as they are.
    pub(crate) fn from_parts(store: S, items: Vec<T>) -> (list: Self)
        ensures
            *list.store() == store,
            *list.items_vec() == items,
    {
        LkupList { store, items }
    }

    /// The index, for changing it.
    pub(crate) fn store_mut(&mut self) -> (store: &mut S)
        ensures
            *store == *old(self).store(),
            *final(store) == *final(self).store(),
            *final(self).items_vec() == *old(self).items_vec(),
    {
        &mut self.store
    }

    /// The items, for changing them.
    pub(crate) fn items_mut(&mut self) -> (items: &mut Vec<T>)
        ensures
            *items == *old(self).items_vec(),
            *final(items) == *final(self).items_vec(),
            *final(self).store() == *old(self).store(),
    {
        &mut self.items
    }

    /// The index, for reading it.
    pub(crate) fn store_ref(&self) -> (store: &S)
        ensures
            store == self.store(),
    {
        &self.store
    }

    /// The items, for reading them.
    pub(crate) fn items_ref(&self) -> (items: &Vec<T>)
        ensures
            items == self.items_vec(),
    {
        &self.items
    }
}

impl<S: Store, T> LkupList<S, T> {
    /// The index is as its operations keep it.
    pub open spec fn well_formed(&self) -> bool {
        self.store().well_formed()
    }

    /// The list of `items`, indexed in `lookup` by the keys that `field`
    /// gives. Where the index refuses a position, the error is handed on.
    pub fn new<F: Fn(&T) -> S::Key>(lookup: S, field: F, items: Vec<T>) -> (r: Result<
        Self,
        PositionError,
    >)
        requires
            lookup.well_formed(),
            forall|item: &T| call_requires(field, (item,)),
        ensures
            match r {
                Ok(list) => {
                    &&& list.well_formed()
                    &&& list.items() == items@
                    &&& exists|keys: Seq<S::Key>| #[trigger]
                        keyed_by(field, items@, keys) && indexes(
                            &lookup,
                            list.store(),
                            keys,
                            items@.len(),
                        )
                },
                Err(e) => exists|keys: Seq<S::Key>, n: nat, reached: S|
                    {
                        &&& n < items@.len()
                        &&& keys.len() == n + 1
                        &&& #[trigger] keyed_by(field, items@.take(n as int + 1), keys)
                        &&& reached.well_formed()
                        &&& #[trigger] indexes(&lookup, &reached, keys, n)
                        &&& reached.verdict(&keys[n as int], n as usize) == Err::<
                            (),
                            PositionError,
                        >(e)
                    },
            },
    {
        Self::build(lookup, &field, items)
    }

    /// The list of `items`, indexed in `lookup` by the keys that `field`
    /// gives. Where the index refuses a position, the error is handed on.
    pub(crate) fn build<F: Fn(&T) -> S::Key>(lookup: S, field: &F, items: Vec<T>) -> (r: Result<
        Self,
        PositionError,
    >)
        requires
            lookup.well_formed(),
            forall|item: &T| call_requires(*field, (item,)),
        ensures
            match r {
                Ok(list) => {
                    &&& list.well_formed()
                    &&& list.items() == items@
                    &&& exists|keys: Seq<S::Key>| #[trigger]
                        keyed_by(*field, items@, keys) && indexes(
                            &lookup,
                            list.store(),
                            keys,
                            items@.len(),
                        )
                },
                Err(e) => exists|keys: Seq<S::Key>, n: nat, reached: S|
                    {
                        &&& n < items@.len()
                        &&& keys.len() == n + 1
                        &&& #[trigger] keyed_by(*field, items@.take(n as int + 1), keys)
                        &&& reached.well_formed()
                        &&& #[trigger] indexes(&lookup, &reached, keys, n)
                        &&& reached.verdict(&keys[n as int], n as usize) == Err::<
                            (),
                            PositionError,
                        >(e)
                    },
            },
    {
        let mut store: S = lookup;
        let ghost mut keys: Seq<S::Key> = Seq::empty();
        let mut i: usize = 0;
        while i < items.len()
            invariant
                i <= items.len(),
                store.well_formed(),
                forall|item: &T| call_requires(*field, (item,)),
                keyed_by(*field, items@.take(i as int), keys),
                indexes(&lookup, &store, keys, i as nat),
            decreases items.len() - i,
        {
            let key: S::Key = field(&items[i]);
            let ghost k = key;
            let ghost reached = store;
            let ghost more = keys.push(k);
            proof {
                assert(keyed_by(*field, items@.take(i + 1), more)) by {
                    assert forall|p: int| 0 <= p < i + 1 implies call_ensures(
                        *field,
                        (&items@.take(i + 1)[p],),
                        #[trigger] more[p],
                    ) by {
                        if p < i {
                            assert(items@.take(i as int)[p] == items@.take(i + 1)[p]);
                            assert(more[p] == keys[p]);
                        }
                    }
                }
                assert forall|kk: S::Key| #[trigger]
                    reached.held(&kk) == held_after::<S>(lookup.held(&kk), kk, more, i as nat) by {
                    lemma_held_after_prefix::<S>(lookup.held(&kk), kk, keys, more, i as nat);
                }
            }
            match store.insert(key, i) {
                Ok(_) => {},
                Err(e) => {
                    proof {
                        assert(more.len() == i + 1);
                        assert(keyed_by(*field, items@.take(i as nat as int + 1), more));
                        assert(indexes(&lookup, &reached, more, i as nat));
                        assert(reached.verdict(&more[i as nat as int], i as nat as usize) == Err::<
                            (),
                            PositionError,
                        >(e));
                    }
                    return Err(e);
                },
            }
            proof {
                keys = more;
            }
            i = i + 1;
        }
        proof {
            assert(items@.take(items@.len() as int) =~= items@);
        }
        Ok(LkupList { store, items })
    }

    /// Whether an item is known for `key`.
    pub fn contains_lkup_key<Q: Copy>(&self, key: Q) -> (found: bool) where S: Retriever<Q>
        ensures
            found <==> self.store().positions_of(key).len() > 0,
    {
        self.store.key_exist(key)
    }

    /// The items that are known for `key`.
    pub fn get_by_lkup_key<Q: Copy>(&self, key: Q) -> (found: Vec<&T>) where S: Retriever<Q>
        ensures
            pointed_to(found@) == found_at(self.items_vec(), self.store().positions_of(key)),
    {
        gather(&self.items, self.store.pos_by_key(key))
    }

    /// The items that are known for any of `keys`, key by key. An item
    /// comes once for each time that its key is given.
    pub fn get_by_many_lkup_keys<Q: Copy>(&self, keys: Vec<Q>) -> (found: Vec<&T>) where
        S: Retriever<Q>,

        ensures
            pointed_to(found@) == found_at(self.items_vec(), positions_of_all(self.store(), keys@)),
    {
        let all: Vec<usize> = self.store.pos_by_many_keys(keys).collect();
        gather(&self.items, all.as_slice())
    }

    /// A view of the entries of `keys`, over the same items.
    pub fn create_lkup_view<'a>(&'a self, keys: Vec<<S as ViewCreator<'a>>::Key>) -> (view: Retrieve<
        'a,
        crate::lookup::store::view::View<<S as ViewCreator<'a>>::Retriever>,
        Vec<T>,
    >) where S: ViewCreator<'a>
        ensures
            self.store().shows(view.retriever(), keys@),
            view.source() == self.items_vec(),
    {
        Retrieve::new(self.store.create_view(keys), &self.items)
    }

    /// The index, for what it offers beyond the common read side.
    pub fn lkup_ext(&self) -> (store: &S)
        ensures
            store == self.store(),
    {
        &self.store
    }
}

impl<S, T> core::ops::Deref for LkupList<S, T> {
    type Target = Vec<T>;

    /// The items.
    fn deref(&self) -> (items: &Vec<T>)
        ensures
            items == self.items_vec(),
    {
        &self.items
    }
}

} // verus!

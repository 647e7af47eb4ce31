//! A map that is read through an index and never changes.
use vstd::prelude::*;
use crate::collections::Retrieve;
use crate::lookup::store::item::found_at;
use crate::lookup::store::item::gather;
use crate::lookup::store::item::pointed_to;
use crate::lookup::store::position::PositionError;
use crate::lookup::store::position::with_pos;
use crate::lookup::store::positions_of_all;
use crate::lookup::store::Lookup;
use crate::lookup::store::Retriever;
use crate::lookup::store::Store;
use crate::lookup::store::ViewCreator;
use std::collections::HashMap;
use vstd::std_specs::iter::IteratorSpec;

verus! {

/// The numbers at which `items` holds an item, each once, in no order that
/// can be relied on.
pub fn numbers_of<V>(items: &HashMap<usize, V>) -> (all: Vec<usize>)
    ensures
        all@.to_set() == items@.dom(),
        all@.no_duplicates(),
{
    broadcast use vstd::std_specs::hash::group_hash_axioms;

    let mut all: Vec<usize> = Vec::new();
    let ghost order = vstd::std_specs::hash::spec_keys_iter(items).remaining().unref();
    for key in it: items.keys()
        invariant
            order == it.seq().unref(),
            all@ == order.take(it.index() as int),
            order.to_set() == items@.dom(),
            order.no_duplicates(),
    {
        all.push(*key);
    }
    assert(all@ =~= order);
    all
}

/// Whether `keys` are keys that `field` gives for the items of `items` at
/// `order`, one for each.
pub open spec fn keyed_at<V, K, F: Fn(&V) -> K>(
    field: F,
    items: Map<usize, V>,
    order: Seq<usize>,
    keys: Seq<K>,
) -> bool {
    &&& keys.len() == order.len()
    &&& forall|n: int|
        0 <= n < order.len() ==> items.contains_key(order[n]) && call_ensures(
            field,
            (&items[order[n]],),
            #[trigger] keys[n],
        )
}

/// What is held under `key` once the first `n` of `order` have been stored
/// under their `keys`, one after the other, starting from `held`.
pub open spec fn held_after_at<S: Store>(
    held: Seq<usize>,
    key: S::Key,
    keys: Seq<S::Key>,
    order: Seq<usize>,
    n: nat,
) -> Seq<usize>
    decreases n,
{
    if n == 0 {
        held
    } else {
        let before = held_after_at::<S>(held, key, keys, order, (n - 1) as nat);
        if S::same_key(&key, &keys[n - 1]) {
            with_pos(before, order[n - 1])
        } else {
            before
        }
    }
}

/// Whether `end` is `start` with the first `n` of `order` stored under their
/// `keys`.
pub open spec fn indexes_at<S: Store>(
    start: &S,
    end: &S,
    keys: Seq<S::Key>,
    order: Seq<usize>,
    n: nat,
) -> bool {
    forall|k: S::Key| #[trigger]
        end.held(&k) == held_after_at::<S>(start.held(&k), k, keys, order, n)
}

/// What is held after the first `n` depends on the first `n` keys only.
pub proof fn lemma_held_after_at_prefix<S: Store>(
    held: Seq<usize>,
    key: S::Key,
    keys: Seq<S::Key>,
    more: Seq<S::Key>,
    order: Seq<usize>,
    n: nat,
)
    requires
        n <= keys.len() <= more.len(),
        forall|p: int| 0 <= p < keys.len() ==> keys[p] == more[p],
    ensures
        held_after_at::<S>(held, key, keys, order, n) == held_after_at::<S>(
            held,
            key,
            more,
            order,
            n,
        ),
    decreases n,
{
    if n > 0 {
        lemma_held_after_at_prefix::<S>(held, key, keys, more, order, (n - 1) as nat);
    }
}

/// The map that holds the items of `pairs` at their numbers. Of two items at
/// one number the later stays.
pub open spec fn map_of<V>(pairs: Seq<(usize, V)>) -> Map<usize, V>
    decreases pairs.len(),
{
    if pairs.len() == 0 {
        Map::empty()
    } else {
        map_of(pairs.drop_last()).insert(pairs.last().0, pairs.last().1)
    }
}

/// A map of items, each at a number, with an index over them. The positions
/// in the index are the numbers.
#[derive(Debug, Clone)]
pub struct LkupHashMap<S, V> {
    store: S,
    items: HashMap<usize, V>,
}

impl<S, V> LkupHashMap<S, V> {
    /// The index.
    pub closed spec fn store(&self) -> &S {
        &self.store
    }

    /// The map of the items.
    pub closed spec fn items_map(&self) -> &HashMap<usize, V> {
        &self.items
    }

    /// The items, each at its number.
    pub open spec fn items(&self) -> Map<usize, V> {
        self.items_map()@
    }
}

impl<S: Store, V> LkupHashMap<S, V> {
    /// The index is as its operations keep it.
    pub open spec fn well_formed(&self) -> bool {
        self.store().well_formed()
    }

    /// Whether `r` is what becomes of indexing `items` in `lookup` by the keys
    /// that `field` gives: the map with every number stored under the key of
    /// its item, the numbers taken in some order; or the error with which
    /// the index refused one of them.
    pub open spec fn indexed_from<F: Fn(&V) -> S::Key>(
        lookup: &S,
        field: F,
        items: Map<usize, V>,
        r: Result<Self, PositionError>,
    ) -> bool {
        match r {
            Ok(map) => {
                &&& map.well_formed()
                &&& map.items() == items
                &&& exists|order: Seq<usize>, keys: Seq<S::Key>|
                    {
                        &&& order.no_duplicates()
                        &&& order.to_set() == items.dom()
                        &&& #[trigger] keyed_at(field, items, order, keys)
                        &&& indexes_at(lookup, map.store(), keys, order, order.len())
                    }
            },
            Err(e) => exists|order: Seq<usize>, keys: Seq<S::Key>, reached: S|
                {
                    &&& order.len() > 0
                    &&& order.no_duplicates()
                    &&& order.to_set().subset_of(items.dom())
                    &&& #[trigger] keyed_at(field, items, order, keys)
                    &&& reached.well_formed()
                    &&& #[trigger] indexes_at(
                        lookup,
                        &reached,
                        keys,
                        order,
                        (order.len() - 1) as nat,
                    )
                    &&& reached.verdict(&keys.last(), order.last()) == Err::<(), PositionError>(e)
                },
        }
    }

    /// The map of `items` with `store` for its index, as they are.
    pub(crate) fn from_parts(store: S, items: HashMap<usize, V>) -> (map: Self)
        ensures
            *map.store() == store,
            *map.items_map() == items,
    {
        LkupHashMap { store, items }
    }

    /// The index, for changing it.
    pub(crate) fn store_mut(&mut self) -> (store: &mut S)
        ensures
            *store == *old(self).store(),
            *final(store) == *final(self).store(),
            *final(self).items_map() == *old(self).items_map(),
    {
        &mut self.store
    }

    /// The items, for changing them.
    pub(crate) fn items_mut(&mut self) -> (items: &mut HashMap<usize, V>)
        ensures
            *items == *old(self).items_map(),
            *final(items) == *final(self).items_map(),
            *final(self).store() == *old(self).store(),
    {
        &mut self.items
    }

    /// The index, for reading it.
    pub(crate) fn store_ref(&self) -> (store: &S)
        ensures
            store == self.store(),
    {
        &self.store
    }

    /// The items, for reading them.
    pub(crate) fn items_ref(&self) -> (items: &HashMap<usize, V>)
        ensures
            items == self.items_map(),
    {
        &self.items
    }

    /// The map of `items`, indexed in `lookup` by the keys that `field`
    /// gives. The items are taken in an order that cannot be relied on.
    /// Where the index refuses a position, the error is handed on.
    pub fn new<F: Fn(&V) -> S::Key>(lookup: S, field: F, items: HashMap<usize, V>) -> (r: Result<
        Self,
        PositionError,
    >)
        requires
            lookup.well_formed(),
            forall|item: &V| call_requires(field, (item,)),
        ensures
            Self::indexed_from(&lookup, field, items@, r),
            r is Ok ==> *r.unwrap().items_map() == items,
    {
        Self::build(lookup, &field, items)
    }

    /// As `new`, with `field` lent.
    pub(crate) fn build<F: Fn(&V) -> S::Key>(lookup: S, field: &F, items: HashMap<usize, V>) -> (r:
        Result<Self, PositionError>)
        requires
            lookup.well_formed(),
            forall|item: &V| call_requires(*field, (item,)),
        ensures
            Self::indexed_from(&lookup, *field, items@, r),
            r is Ok ==> *r.unwrap().items_map() == items,
    {
        broadcast use vstd::std_specs::hash::group_hash_axioms;

        let numbers: Vec<usize> = numbers_of(&items);
        let mut store: S = lookup;
        let ghost mut keys: Seq<S::Key> = Seq::empty();
        let mut i: usize = 0;
        while i < numbers.len()
            invariant
                i <= numbers.len(),
                numbers@.to_set() == items@.dom(),
                numbers@.no_duplicates(),
                store.well_formed(),
                forall|item: &V| call_requires(*field, (item,)),
                keyed_at(*field, items@, numbers@.take(i as int), keys),
                indexes_at(&lookup, &store, keys, numbers@, i as nat),
            decreases numbers.len() - i,
        {
            let number: usize = numbers[i];
            assert(numbers@.to_set().contains(number));
            let item: &V = items.get(&number).unwrap();
            let key: S::Key = field(item);
            let ghost k = key;
            let ghost reached = store;
            let ghost more = keys.push(k);
            let ghost order = numbers@.take(i + 1);
            proof {
                assert(keyed_at(*field, items@, order, more)) by {
                    assert forall|n: int| 0 <= n < order.len() implies items@.contains_key(order[n])
                        && call_ensures(*field, (&items@[order[n]],), #[trigger] more[n]) by {
                        if n < i {
                            assert(numbers@.take(i as int)[n] == order[n]);
                            assert(more[n] == keys[n]);
                        }
                    }
                }
                assert forall|kk: S::Key| #[trigger]
                    reached.held(&kk) == held_after_at::<S>(
                        lookup.held(&kk),
                        kk,
                        more,
                        numbers@,
                        i as nat,
                    ) by {
                    lemma_held_after_at_prefix::<S>(
                        lookup.held(&kk),
                        kk,
                        keys,
                        more,
                        numbers@,
                        i as nat,
                    );
                }
            }
            match store.insert(key, number) {
                Ok(_) => {},
                Err(e) => {
                    proof {
                        lemma_order_prefix::<S>(&lookup, &reached, more, numbers@, i as nat);
                        assert(keyed_at(*field, items@, order, more));
                        assert(order.no_duplicates());
                        assert(order.to_set().subset_of(items@.dom())) by {
                            assert forall|p: usize| order.to_set().contains(p) implies items@.dom().contains(
                                p,
                            ) by {
                                let n = choose|n: int| 0 <= n < order.len() && order[n] == p;
                                assert(numbers@[n] == p);
                                assert(numbers@.to_set().contains(p));
                            }
                        }
                        assert(more.last() == k);
                        assert(order.last() == number);
                        assert(indexes_at(&lookup, &reached, more, order, (order.len() - 1) as nat));
                    }
                    return Err(e);
                },
            }
            proof {
                keys = more;
            }
            i = i + 1;
        }
        proof {
            assert(numbers@.take(numbers@.len() as int) =~= numbers@);
            assert(keyed_at(*field, items@, numbers@, keys));
        }
        Ok(LkupHashMap { store, items })
    }

    /// The map of the `pairs` of a number and an item, indexed in `lookup`
    /// by the keys that `field` gives. Of two items at one number the later
    /// stays.
    pub fn from_iter<F: Fn(&V) -> S::Key>(lookup: S, field: F, pairs: Vec<(usize, V)>) -> (r: Result<
        Self,
        PositionError,
    >)
        requires
            lookup.well_formed(),
            forall|item: &V| call_requires(field, (item,)),
        ensures
            Self::indexed_from(&lookup, field, map_of(pairs@), r),
    {
        broadcast use vstd::std_specs::hash::group_hash_axioms;

        let mut items: HashMap<usize, V> = HashMap::new();
        let ghost all = pairs@;
        for pair in it: pairs
            invariant
                it.seq() == all,
                items@ == map_of(all.take(it.index() as int)),
        {
            proof {
                assert(all.take(it.index() + 1).drop_last() =~= all.take(it.index() as int));
            }
            items.insert(pair.0, pair.1);
        }
        proof {
            assert(all.take(all.len() as int) =~= all);
        }
        Self::build(lookup, &field, items)
    }

    /// Whether an item is known for `key`.
    pub fn contains_lkup_key<Q: Copy>(&self, key: Q) -> (found: bool) where S: Retriever<Q>
        ensures
            found <==> self.store().positions_of(key).len() > 0,
    {
        self.store.key_exist(key)
    }

    /// The items that are known for `key`.
    pub fn get_by_lkup_key<Q: Copy>(&self, key: Q) -> (found: Vec<&V>) where S: Retriever<Q>
        ensures
            pointed_to(found@) == found_at(self.items_map(), self.store().positions_of(key)),
    {
        gather(&self.items, self.store.pos_by_key(key))
    }

    /// The items that are known for any of `keys`, key by key. An item
    /// comes once for each time that its key is given.
    pub fn get_by_many_lkup_keys<Q: Copy>(&self, keys: Vec<Q>) -> (found: Vec<&V>) where
        S: Retriever<Q>,

        ensures
            pointed_to(found@) == found_at(
                self.items_map(),
                positions_of_all(self.store(), keys@),
            ),
    {
        let all: Vec<usize> = self.store.pos_by_many_keys(keys).collect();
        gather(&self.items, all.as_slice())
    }

    /// The index, for what it offers beyond the common read side.
    pub fn lkup_ext(&self) -> (store: &S)
        ensures
            store == self.store(),
    {
        &self.store
    }

    /// A view of the entries of `keys`, over the same items.
    pub fn create_lkup_view<'a>(&'a self, keys: Vec<<S as ViewCreator<'a>>::Key>) -> (view: Retrieve<
        'a,
        crate::lookup::store::view::View<<S as ViewCreator<'a>>::Retriever>,
        HashMap<usize, V>,
    >) where S: ViewCreator<'a>
        ensures
            self.store().shows(view.retriever(), keys@),
            view.source() == self.items_map(),
    {
        Retrieve::new(self.store.create_view(keys), &self.items)
    }
}

/// What is held after the first `n` of an order depends on the first `n` of
/// it only.
pub proof fn lemma_order_prefix<S: Store>(
    start: &S,
    end: &S,
    keys: Seq<S::Key>,
    order: Seq<usize>,
    n: nat,
)
    requires
        n < order.len(),
        indexes_at(start, end, keys, order, n),
    ensures
        indexes_at(start, end, keys, order.take(n as int + 1), n),
{
    assert forall|k: S::Key| #[trigger]
        end.held(&k) == held_after_at::<S>(start.held(&k), k, keys, order.take(n as int + 1), n) by {
        lemma_held_after_at_order::<S>(start.held(&k), k, keys, order, order.take(n as int + 1), n);
    }
}

/// What is held after the first `n` is the same for two orders that agree
/// on their first `n`.
pub proof fn lemma_held_after_at_order<S: Store>(
    held: Seq<usize>,
    key: S::Key,
    keys: Seq<S::Key>,
    order: Seq<usize>,
    other: Seq<usize>,
    n: nat,
)
    requires
        n <= order.len(),
        n <= other.len(),
        forall|p: int| 0 <= p < n ==> order[p] == other[p],
    ensures
        held_after_at::<S>(held, key, keys, order, n) == held_after_at::<S>(
            held,
            key,
            keys,
            other,
            n,
        ),
    decreases n,
{
    if n > 0 {
        lemma_held_after_at_order::<S>(held, key, keys, order, other, (n - 1) as nat);
    }
}

impl<S, V> core::ops::Deref for LkupHashMap<S, V> {
    type Target = HashMap<usize, V>;

    /// The items.
    fn deref(&self) -> (items: &HashMap<usize, V>)
        ensures
            items == self.items_map(),
    {
        &self.items
    }
}

} // verus!

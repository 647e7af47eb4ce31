//! A map that grows and changes, with an index that follows it.
use vstd::prelude::*;
use crate::collections::map::ro;
use crate::lookup::store::item::found_at;
use crate::lookup::store::item::Itemer;
use crate::lookup::store::position::PositionError;
use crate::lookup::store::rekeyed;
use crate::lookup::store::same_held;
use crate::lookup::store::stored_under;
use crate::lookup::store::taken_from;
use crate::lookup::store::Retriever;
use crate::lookup::store::Store;
use std::collections::HashMap;

verus! {

/// A growable map of items, each at a number, with an index over them. The
/// key of an item is what `field` gives for it; its position in the index is
/// its number.
#[derive(Debug, Clone)]
pub struct LkupHashMap<S, F, V> {
    field: F,
    inner: ro::LkupHashMap<S, V>,
}

impl<S, F, V> core::ops::Deref for LkupHashMap<S, F, V> {
    type Target = ro::LkupHashMap<S, V>;

    /// The map, for reading.
    fn deref(&self) -> (map: &ro::LkupHashMap<S, V>)
        ensures
            map == self.map(),
    {
        &self.inner
    }
}

impl<S, F, V> LkupHashMap<S, F, V> {
    /// What gives the key of an item.
    pub closed spec fn field(&self) -> F {
        self.field
    }

    /// The map of the items and their index.
    pub closed spec fn map(&self) -> &ro::LkupHashMap<S, V> {
        &self.inner
    }

    /// The items, each at its number.
    pub open spec fn items(&self) -> Map<usize, V> {
        self.map().items()
    }

    /// The index.
    pub open spec fn store(&self) -> &S {
        self.map().store()
    }

    /// The items under their short name, for the contracts.
    pub open spec fn items_map(&self) -> &HashMap<usize, V> {
        self.map().items_map()
    }
}

impl<S: Store, F: Fn(&V) -> S::Key, V> LkupHashMap<S, F, V> {
    /// The index is as its operations keep it, and every item has a key.
    pub open spec fn well_formed(&self) -> bool {
        &&& self.map().well_formed()
        &&& forall|item: &V| call_requires(self.field(), (item,))
    }

    /// Whether `key` is a key of `item`.
    pub open spec fn is_key_of(&self, item: &V, key: &S::Key) -> bool {
        call_ensures(self.field(), (item,), *key)
    }

    /// The empty map over the index `lookup`.
    pub fn new(lookup: S, field: F) -> (map: Self)
        requires
            lookup.well_formed(),
            forall|item: &V| call_requires(field, (item,)),
        ensures
            map.well_formed(),
            map.field() == field,
            *map.store() == lookup,
            map.items() == Map::<usize, V>::empty(),
    {
        LkupHashMap { field, inner: ro::LkupHashMap::from_parts(lookup, HashMap::new()) }
    }

    /// Puts `item` at `number` and stores the number under the item's key.
    /// Hands back the item that stood at `number` before; its key keeps the
    /// number in the index. Where the index refuses, nothing changes.
    pub fn insert(&mut self, number: usize, item: V) -> (r: Result<Option<V>, PositionError>)
        requires
            old(self).well_formed(),
        ensures
            final(self).well_formed(),
            final(self).field() == old(self).field(),
            exists|key: S::Key|
                {
                    &&& #[trigger] old(self).is_key_of(&item, &key)
                    &&& match r {
                        Ok(was) => {
                            &&& old(self).store().verdict(&key, number) is Ok
                            &&& final(self).items() == old(self).items().insert(number, item)
                            &&& was == old(self).items_map().item_at(number)
                            &&& stored_under(old(self).store(), final(self).store(), &key, number)
                        },
                        Err(e) => {
                            &&& old(self).store().verdict(&key, number) == Err::<
                                (),
                                PositionError,
                            >(e)
                            &&& final(self).items() == old(self).items()
                            &&& same_held(old(self).store(), final(self).store())
                        },
                    }
                },
    {
        broadcast use vstd::std_specs::hash::group_hash_axioms;

        let key: S::Key = (self.field)(&item);
        let ghost k = key;
        match self.inner.store_mut().insert(key, number) {
            Ok(_) => {
                let was: Option<V> = self.inner.items_mut().insert(number, item);
                proof {
                    assert(old(self).is_key_of(&item, &k));
                }
                Ok(was)
            },
            Err(e) => {
                proof {
                    assert(old(self).is_key_of(&item, &k));
                }
                Err(e)
            },
        }
    }

    /// Takes the item at `number` out and hands it back; nothing where there
    /// is none. The number is taken away from the item's key.
    pub fn remove(&mut self, number: usize) -> (r: Option<V>)
        requires
            old(self).well_formed(),
        ensures
            final(self).well_formed(),
            final(self).field() == old(self).field(),
            r == old(self).items_map().item_at(number),
            final(self).items() == old(self).items().remove(number),
            match r {
                Some(item) => exists|key: S::Key| #[trigger]
                    old(self).is_key_of(&item, &key) && taken_from(
                        old(self).store(),
                        final(self).store(),
                        &key,
                        number,
                    ),
                None => *final(self).store() == *old(self).store(),
            },
    {
        broadcast use vstd::std_specs::hash::group_hash_axioms;

        match self.inner.items_mut().remove(&number) {
            Some(removed) => {
                assert(self.field() == old(self).field());
                let taken: &V = &removed;
                assert(call_requires(self.field(), (taken,)));
                let key: S::Key = (self.field)(taken);
                let ghost k = key;
                self.inner.store_mut().delete(key, &number);
                proof {
                    assert(old(self).is_key_of(&removed, &k));
                }
                Some(removed)
            },
            None => {
                proof {
                    assert(self.field() == old(self).field());
                    assert(self.items() =~= old(self).items().remove(number));
                }
                None
            },
        }
    }

    /// Whether `after` is `before` with the item at `number` changed and
    /// its number moved to its new key; with nothing changed where there is
    /// no such item.
    pub open spec fn changed_at(
        before: &Self,
        after: &Self,
        number: usize,
        refused: Option<PositionError>,
    ) -> bool {
        &&& after.field() == before.field()
        &&& after.items().dom() == before.items().dom()
        &&& forall|other: usize|
            before.items().contains_key(other) && other != number ==> after.items()[other]
                == before.items()[other]
        &&& if before.items().contains_key(number) {
            exists|old_key: S::Key, new_key: S::Key|
                {
                    &&& #[trigger] before.is_key_of(&before.items()[number], &old_key)
                    &&& #[trigger] after.is_key_of(&after.items()[number], &new_key)
                    &&& rekeyed(
                        before.store(),
                        after.store(),
                        &old_key,
                        number,
                        &new_key,
                        number,
                        refused,
                    )
                }
        } else {
            &&& refused is None
            &&& after.items() == before.items()
            &&& *after.store() == *before.store()
        }
    }

    /// Lets `update` change the item at `number` and moves the number to
    /// the item's new key. Says whether there was such an item.
    fn update_at<U: Fn(&mut V)>(&mut self, number: usize, update: &U) -> (r: Result<
        bool,
        PositionError,
    >)
        requires
            old(self).well_formed(),
            forall|item: &mut V| call_requires(*update, (item,)),
        ensures
            final(self).well_formed(),
            Self::changed_at(
                old(self),
                final(self),
                number,
                match r {
                    Ok(_) => None,
                    Err(e) => Some(e),
                },
            ),
            r is Ok ==> r == Ok::<bool, PositionError>(old(self).items().contains_key(number)),
            old(self).items().contains_key(number) ==> exists|item: &mut V|
                {
                    &&& *item == old(self).items()[number]
                    &&& *final(item) == final(self).items()[number]
                    &&& #[trigger] call_ensures(*update, (item,), ())
                },
    {
        broadcast use vstd::std_specs::hash::group_hash_axioms;

        match self.inner.items_mut().remove(&number) {
            None => {
                proof {
                    assert(self.field() == old(self).field());
                    assert(self.items() =~= old(self).items());
                }
                Ok(false)
            },
            Some(taken) => {
                let mut item: V = taken;
                assert(self.field() == old(self).field());
                let was: &V = &item;
                assert(call_requires(self.field(), (was,)));
                let old_key: S::Key = (self.field)(was);
                let ghost ok = old_key;
                update(&mut item);
                let is: &V = &item;
                assert(call_requires(self.field(), (is,)));
                let new_key: S::Key = (self.field)(is);
                let ghost nk = new_key;
                let ghost changed = item;
                self.inner.items_mut().insert(number, item);
                let r = self.inner.store_mut().update(old_key, number, new_key);
                proof {
                    assert(self.field() == old(self).field());
                    assert(self.items() =~= old(self).items().insert(number, changed));
                    assert(self.items().dom() =~= old(self).items().dom());
                    assert(old(self).is_key_of(&old(self).items()[number], &ok));
                    assert(self.is_key_of(&self.items()[number], &nk));
                }
                match r {
                    Ok(_) => Ok(true),
                    Err(e) => Err(e),
                }
            },
        }
    }

    /// Lets `update` change the item at `number` and moves the number to the
    /// item's new key. Hands out the changed item, or nothing where there is
    /// no item at `number`. The index follows in two steps that are not
    /// atomic: where storing under the new key is refused, the item has
    /// changed and its number is no longer stored.
    pub fn update<U: Fn(&mut V)>(&mut self, number: usize, update: U) -> (r: Result<
        Option<&V>,
        PositionError,
    >)
        requires
            old(self).well_formed(),
            forall|item: &mut V| call_requires(update, (item,)),
        ensures
            final(self).well_formed(),
            Self::changed_at(
                old(self),
                final(self),
                number,
                match r {
                    Ok(_) => None,
                    Err(e) => Some(e),
                },
            ),
            r is Ok ==> r is Ok && (r.unwrap() is Some <==> old(self).items().contains_key(number)),
            r is Ok && r.unwrap() is Some ==> *r.unwrap().unwrap() == final(self).items()[number],
            old(self).items().contains_key(number) ==> exists|item: &mut V|
                {
                    &&& *item == old(self).items()[number]
                    &&& *final(item) == final(self).items()[number]
                    &&& #[trigger] call_ensures(update, (item,), ())
                },
    {
        broadcast use vstd::std_specs::hash::group_hash_axioms;

        match self.update_at(number, &update) {
            Ok(found) => {
                if found {
                    Ok(self.inner.items_ref().get(&number))
                } else {
                    Ok(None)
                }
            },
            Err(e) => Err(e),
        }
    }

    /// Whether `states` is a run of changes: from each state to the next the
    /// item at the number of that step has been changed and the index has
    /// followed it, none refused.
    pub open spec fn run_of_changes(states: Seq<Self>, numbers: Seq<usize>) -> bool {
        forall|i: int|
            0 <= i < states.len() - 1 ==> (#[trigger] states[i]).well_formed() && Self::changed_at(
                &states[i],
                &states[i + 1],
                numbers[i],
                None,
            )
    }

    /// Lets `update` change each item that is known for `key`, and says how
    /// many there were. The numbers are those known when the call starts;
    /// they are gone through in their order, and the index follows each item
    /// as `update` of a single item has it. Where the index refuses the new
    /// key of an item, that item has changed, the ones after it have not,
    /// and the error is handed on.
    pub fn update_by_key<Q: Copy, U: Fn(&mut V)>(&mut self, key: Q, update: U) -> (r: Result<
        usize,
        PositionError,
    >) where S: Retriever<Q>
        requires
            old(self).well_formed(),
            forall|item: &mut V| call_requires(update, (item,)),
        ensures
            final(self).well_formed(),
            final(self).field() == old(self).field(),
            final(self).items().dom() == old(self).items().dom(),
            forall|other: usize|
                old(self).items().contains_key(other) && !old(self).store().positions_of(
                    key,
                ).contains(other) ==> final(self).items()[other] == old(self).items()[other],
            r is Ok && old(self).store().positions_of(key).no_duplicates() ==> forall|p: usize|
                #[trigger] old(self).store().positions_of(key).contains(p) && old(self).items().contains_key(p)
                    ==> exists|item: &mut V|
                    {
                        &&& *item == old(self).items()[p]
                        &&& *final(item) == final(self).items()[p]
                        &&& #[trigger] call_ensures(update, (item,), ())
                    },
            match r {
                Ok(count) => {
                    &&& count == found_at(
                        old(self).items_map(),
                        old(self).store().positions_of(key),
                    ).len()
                    &&& exists|states: Seq<Self>|
                        {
                            &&& states.len() == old(self).store().positions_of(key).len() + 1
                            &&& states[0] == *old(self)
                            &&& states.last() == *final(self)
                            &&& #[trigger] Self::run_of_changes(
                                states,
                                old(self).store().positions_of(key),
                            )
                        }
                },
                Err(e) => exists|states: Seq<Self>|
                    {
                        &&& 0 < states.len() <= old(self).store().positions_of(key).len()
                        &&& states[0] == *old(self)
                        &&& #[trigger] Self::run_of_changes(
                            states,
                            old(self).store().positions_of(key),
                        )
                        &&& states.last().well_formed()
                        &&& Self::changed_at(
                            &states.last(),
                            final(self),
                            old(self).store().positions_of(key)[states.len() - 1],
                            Some(e),
                        )
                    },
            },
    {
        let positions: Vec<usize> = vstd::slice::slice_to_vec(
            self.inner.store_ref().pos_by_key(key),
        );
        let ghost items = self.items();
        let ghost each = |pos: usize| old(self).items_map().item_at(pos);
        let ghost mut states: Seq<Self> = seq![*self];
        let mut count: usize = 0;
        let mut i: usize = 0;
        assert(positions@.take(0).filter_map(each) =~= Seq::<V>::empty());
        while i < positions.len()
            invariant
                i <= positions.len(),
                positions@ == old(self).store().positions_of(key),
                items == old(self).items(),
                each == |pos: usize| old(self).items_map().item_at(pos),
                self.well_formed(),
                self.field() == old(self).field(),
                self.items().dom() == items.dom(),
                forall|item: &mut V| call_requires(update, (item,)),
                forall|other: usize|
                    items.contains_key(other) && !positions@.contains(other) ==> self.items()[other]
                        == items[other],
                count == positions@.take(i as int).filter_map(each).len(),
                count <= i,
                states.len() == i + 1,
                states[0] == *old(self),
                states.last() == *self,
                Self::run_of_changes(states, positions@),
                forall|other: usize|
                    items.contains_key(other) && !positions@.take(i as int).contains(other)
                        ==> self.items()[other] == items[other],
                positions@.no_duplicates() ==> forall|p: usize|
                    #[trigger] positions@.take(i as int).contains(p) && items.contains_key(p)
                        ==> exists|item: &mut V|
                        {
                            &&& *item == items[p]
                            &&& *final(item) == self.items()[p]
                            &&& #[trigger] call_ensures(update, (item,), ())
                        },
            decreases positions.len() - i,
        {
            proof {
                positions@.lemma_filter_map_take_succ(each, i as int);
            }
            let ghost before = *self;
            match self.update_at(positions[i], &update) {
                Ok(found) => {
                    if found {
                        count = count + 1;
                    }
                },
                Err(e) => {
                    proof {
                        assert(states.last() == before);
                        assert(Self::run_of_changes(states, positions@));
                    }
                    return Err(e);
                },
            }
            proof {
                assert forall|other: usize|
                    items.contains_key(other) && !positions@.contains(other) implies self.items()[other]
                    == items[other] by {
                    assert(positions@[i as int] != other);
                    assert(before.items()[other] == items[other]);
                }
                let run = states.push(*self);
                assert forall|j: int| 0 <= j < run.len() - 1 implies (#[trigger] run[j]).well_formed()
                    && Self::changed_at(&run[j], &run[j + 1], positions@[j], None) by {
                    if j < i {
                        assert(run[j] == states[j] && run[j + 1] == states[j + 1]);
                    } else {
                        assert(run[j] == before);
                    }
                }
                states = run;
                let done = positions@.take(i as int);
                let more = positions@.take(i + 1);
                assert(more =~= done.push(positions@[i as int]));
                assert forall|other: usize|
                    items.contains_key(other) && !more.contains(other) implies self.items()[other]
                    == items[other] by {
                    assert(more[i as int] == positions@[i as int]);
                    assert(positions@[i as int] != other);
                    if done.contains(other) {
                        let at = choose|at: int| 0 <= at < done.len() && done[at] == other;
                        assert(more[at] == other);
                    }
                    assert(before.items()[other] == items[other]);
                }
                if positions@.no_duplicates() {
                    assert(!done.contains(positions@[i as int])) by {
                        if done.contains(positions@[i as int]) {
                            let at = choose|at: int|
                                0 <= at < done.len() && done[at] == positions@[i as int];
                            assert(positions@[at] == positions@[i as int]);
                        }
                    }
                    assert forall|p: usize| #[trigger] more.contains(p) && items.contains_key(p) implies exists|item: &mut V|
                        {
                            &&& *item == items[p]
                            &&& *final(item) == self.items()[p]
                            &&& #[trigger] call_ensures(update, (item,), ())
                        } by {
                        if p == positions@[i as int] {
                            assert(before.items()[p] == items[p]);
                        } else {
                            let at = choose|at: int| 0 <= at < more.len() && more[at] == p;
                            assert(done[at] == p);
                            assert(done.contains(p));
                            assert(self.items()[p] == before.items()[p]);
                        }
                    }
                }
            }
            i = i + 1;
        }
        proof {
            assert(positions@.take(positions@.len() as int) =~= positions@);
            assert(Self::run_of_changes(states, positions@));
        }
        Ok(count)
    }

    /// Whether no item is left to take out for `key`: no number is known
    /// for it, or the first of them has no item.
    pub open spec fn exhausted<Q: Copy>(map: &Self, key: Q) -> bool where S: Retriever<Q> {
        let positions = map.store().positions_of(key);
        positions.len() == 0 || !map.items().contains_key(positions[0])
    }

    /// Takes out every item that is known for `key`, and says how many
    /// there were. It ends when no number is known for `key`, or when the
    /// first of them has no item.
    pub fn remove_by_key<Q: Copy>(&mut self, key: Q) -> (count: usize) where S: Retriever<Q>
        requires
            old(self).well_formed(),
        ensures
            final(self).well_formed(),
            final(self).field() == old(self).field(),
            final(self).items().dom().subset_of(old(self).items().dom()),
            count == old(self).items().dom().len() - final(self).items().dom().len(),
            Self::exhausted(final(self), key),
    {
        broadcast use vstd::std_specs::hash::group_hash_axioms;

        let total: usize = self.inner.items_ref().len();
        let mut count: usize = 0;
        loop
            invariant
                self.well_formed(),
                self.field() == old(self).field(),
                self.items().dom().finite(),
                self.items().dom().subset_of(old(self).items().dom()),
                total == old(self).items().dom().len(),
                count + self.items().dom().len() == total,
            ensures
                self.well_formed(),
                self.field() == old(self).field(),
                self.items().dom().subset_of(old(self).items().dom()),
                total == old(self).items().dom().len(),
                count + self.items().dom().len() == total,
                Self::exhausted(self, key),
            decreases self.items().dom().len(),
        {
            let positions: &[usize] = self.inner.store_ref().pos_by_key(key);
            if positions.len() == 0 {
                break ;
            }
            let first: usize = positions[0];
            let ghost before = self.items();
            match self.remove(first) {
                Some(_) => {
                    proof {
                        assert(before.contains_key(first));
                        assert(self.items().dom() =~= before.dom().remove(first));
                    }
                    count = count + 1;
                },
                None => {
                    proof {
                        assert(self.items() =~= before);
                    }
                    break ;
                },
            }
        }
        count
    }
}

} // verus!

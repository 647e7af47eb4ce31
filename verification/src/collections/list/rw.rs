//! A list that grows and changes, with an index that follows it.
use vstd::prelude::*;
use crate::lookup::store::item::found_at;
use crate::collections::list::ro::LkupList;
use crate::lookup::store::item::Itemer;
use crate::lookup::store::position::PositionError;
use crate::lookup::store::rekeyed;
use crate::lookup::store::same_held;
use crate::lookup::store::stored_under;
use crate::lookup::store::taken_from;
use crate::lookup::store::Retriever;
use crate::lookup::store::Store;

verus! {

/// A growable list of items with an index over them. The key of an item is
/// what `field` gives for it.
#[derive(Debug, Clone)]
pub struct LkupVec<S, F, T> {
    field: F,
    inner: LkupList<S, T>,
}

impl<S, F, T> core::ops::Deref for LkupVec<S, F, T> {
    type Target = LkupList<S, T>;

    /// The list, for reading.
    fn deref(&self) -> (list: &LkupList<S, T>)
        ensures
            list == self.list(),
    {
        &self.inner
    }
}

impl<S, F, T> LkupVec<S, F, T> {
    /// What gives the key of an item.
    pub closed spec fn field(&self) -> F {
        self.field
    }

    /// The list of the items and their index.
    pub closed spec fn list(&self) -> &LkupList<S, T> {
        &self.inner
    }

    /// The items, each at its position.
    pub open spec fn items(&self) -> Seq<T> {
        self.list().items()
    }

    /// The index.
    pub open spec fn store(&self) -> &S {
        self.list().store()
    }
}

impl<S: Store, F: Fn(&T) -> S::Key, T> LkupVec<S, F, T> {
    /// The index is as its operations keep it, and every item has a key.
    pub open spec fn well_formed(&self) -> bool {
        &&& self.list().well_formed()
        &&& forall|item: &T| call_requires(self.field(), (item,))
    }

    /// Whether `key` is a key of `item`.
    pub open spec fn is_key_of(&self, item: &T, key: &S::Key) -> bool {
        call_ensures(self.field(), (item,), *key)
    }

    /// The empty list over the index `lookup`.
    pub fn new(lookup: S, field: F) -> (list: Self)
        requires
            lookup.well_formed(),
            forall|item: &T| call_requires(field, (item,)),
        ensures
            list.well_formed(),
            list.field() == field,
            *list.store() == lookup,
            list.items().len() == 0,
    {
        LkupVec { field, inner: LkupList::from_parts(lookup, Vec::new()) }
    }

    /// The list of `items` as `list` has them, with `field` for the keys.
    pub(crate) fn from_list(field: F, list: LkupList<S, T>) -> (r: Self)
        ensures
            r.field() == field,
            *r.list() == list,
    {
        LkupVec { field, inner: list }
    }

    /// The list, for reading.
    pub(crate) fn list_ref(&self) -> (list: &LkupList<S, T>)
        ensures
            list == self.list(),
    {
        &self.inner
    }

    /// Appends `item` and stores its position under its key. Where the index
    /// refuses, nothing changes.
    pub fn push(&mut self, item: T) -> (r: Result<usize, PositionError>)
        requires
            old(self).well_formed(),
        ensures
            final(self).well_formed(),
            final(self).field() == old(self).field(),
            exists|key: S::Key|
                {
                    &&& #[trigger] old(self).is_key_of(&item, &key)
                    &&& match r {
                        Ok(pos) => {
                            &&& pos == old(self).items().len()
                            &&& old(self).store().verdict(&key, pos) is Ok
                            &&& final(self).items() == old(self).items().push(item)
                            &&& stored_under(
                                old(self).store(),
                                final(self).store(),
                                &key,
                                pos,
                            )
                        },
                        Err(e) => {
                            &&& old(self).store().verdict(
                                &key,
                                old(self).items().len() as usize,
                            ) == Err::<(), PositionError>(e)
                            &&& final(self).items() == old(self).items()
                            &&& same_held(old(self).store(), final(self).store())
                        },
                    }
                },
    {
        let pos: usize = self.inner.items_ref().len();
        let key: S::Key = (self.field)(&item);
        let ghost k = key;
        match self.inner.store_mut().insert(key, pos) {
            Ok(_) => {
                self.inner.items_mut().push(item);
                proof {
                    assert(old(self).is_key_of(&item, &k));
                }
                Ok(pos)
            },
            Err(e) => {
                proof {
                    assert(old(self).is_key_of(&item, &k));
                }
                Err(e)
            },
        }
    }

    /// Whether `after` is `before` with the item at `index` changed and its
    /// position moved to its new key; with nothing changed where there is no
    /// such item.
    pub open spec fn changed_at(
        before: &Self,
        after: &Self,
        index: usize,
        refused: Option<PositionError>,
    ) -> bool {
        &&& after.field() == before.field()
        &&& after.items().len() == before.items().len()
        &&& forall|j: int|
            0 <= j < before.items().len() && j != index ==> after.items()[j] == before.items()[j]
        &&& if index < before.items().len() {
            exists|old_key: S::Key, new_key: S::Key|
                {
                    &&& #[trigger] before.is_key_of(&before.items()[index as int], &old_key)
                    &&& #[trigger] after.is_key_of(&after.items()[index as int], &new_key)
                    &&& rekeyed(
                        before.store(),
                        after.store(),
                        &old_key,
                        index,
                        &new_key,
                        index,
                        refused,
                    )
                }
        } else {
            &&& refused is None
            &&& after.items() == before.items()
            &&& *after.store() == *before.store()
        }
    }

    /// Lets `update` change the item at `index` and moves its position to
    /// the item's new key. Says whether there was such an item.
    fn update_at<U: Fn(&mut T)>(&mut self, index: usize, update: &U) -> (r: Result<
        bool,
        PositionError,
    >)
        requires
            old(self).well_formed(),
            forall|item: &mut T| call_requires(*update, (item,)),
        ensures
            final(self).well_formed(),
            Self::changed_at(
                old(self),
                final(self),
                index,
                match r {
                    Ok(_) => None,
                    Err(e) => Some(e),
                },
            ),
            r is Ok ==> r == Ok::<bool, PositionError>(index < old(self).items().len()),
            index < old(self).items().len() ==> exists|item: &mut T|
                {
                    &&& *item == old(self).items()[index as int]
                    &&& *final(item) == final(self).items()[index as int]
                    &&& #[trigger] call_ensures(*update, (item,), ())
                },
    {
        if index >= self.inner.items_ref().len() {
            return Ok(false);
        }
        let was: &T = &self.inner.items_ref()[index];
        assert(call_requires(self.field(), (was,)));
        let old_key: S::Key = (self.field)(was);
        let ghost ok = old_key;
        update(&mut self.inner.items_mut()[index]);
        let is: &T = &self.inner.items_ref()[index];
        assert(self.field() == old(self).field());
        assert(call_requires(self.field(), (is,)));
        let new_key: S::Key = (self.field)(is);
        let ghost nk = new_key;
        let r = self.inner.store_mut().update(old_key, index, new_key);
        proof {
            assert(old(self).is_key_of(&old(self).items()[index as int], &ok));
            assert(self.is_key_of(&self.items()[index as int], &nk));
        }
        match r {
            Ok(_) => Ok(true),
            Err(e) => Err(e),
        }
    }

    /// Lets `update` change the item at `index` and moves its position to
    /// the item's new key. Hands out the changed item, or nothing where
    /// there is no item at `index`. The index follows in two steps that are
    /// not atomic: where storing under the new key is refused, the item has
    /// changed and its position is no longer stored.
    pub fn update<U: Fn(&mut T)>(&mut self, index: usize, update: U) -> (r: Result<
        Option<&T>,
        PositionError,
    >)
        requires
            old(self).well_formed(),
            forall|item: &mut T| call_requires(update, (item,)),
        ensures
            final(self).well_formed(),
            Self::changed_at(
                old(self),
                final(self),
                index,
                match r {
                    Ok(_) => None,
                    Err(e) => Some(e),
                },
            ),
            r is Ok ==> r == Ok::<Option<&T>, PositionError>(
                if index < old(self).items().len() {
                    Some(&final(self).items()[index as int])
                } else {
                    None
                },
            ),
            index < old(self).items().len() ==> exists|item: &mut T|
                {
                    &&& *item == old(self).items()[index as int]
                    &&& *final(item) == final(self).items()[index as int]
                    &&& #[trigger] call_ensures(update, (item,), ())
                },
    {
        match self.update_at(index, &update) {
            Ok(found) => {
                if found {
                    Ok(Some(&self.inner.items_ref()[index]))
                } else {
                    Ok(None)
                }
            },
            Err(e) => Err(e),
        }
    }

    /// Whether `after` is `before` without the item at `index`, the last
    /// item having taken its place, and with the index brought in step: the
    /// position of the removed item is taken away from its key, and the
    /// position of the item that moved goes from the last to `index`.
    pub open spec fn removed_at(
        before: &Self,
        after: &Self,
        index: usize,
        refused: Option<PositionError>,
    ) -> bool {
        let last = (before.items().len() - 1) as usize;
        &&& after.field() == before.field()
        &&& after.items() == before.items().update(index as int, before.items().last()).drop_last()
        &&& exists|key: S::Key, cleared: S|
            {
                &&& #[trigger] before.is_key_of(&before.items()[index as int], &key)
                &&& #[trigger] cleared.well_formed()
                &&& taken_from(before.store(), &cleared, &key, index)
                &&& if index == last {
                    refused is None && same_held(&cleared, after.store())
                } else {
                    exists|old_key: S::Key, new_key: S::Key|
                        {
                            &&& #[trigger] before.is_key_of(&before.items().last(), &old_key)
                            &&& #[trigger] before.is_key_of(&before.items().last(), &new_key)
                            &&& rekeyed(
                                &cleared,
                                after.store(),
                                &old_key,
                                last,
                                &new_key,
                                index,
                                refused,
                            )
                        }
                }
            }
    }

    /// Takes the item at `index` out and hands it back; nothing where there
    /// is no item at `index`. The last item takes the place of the removed
    /// one, and the index follows.
    pub fn remove(&mut self, index: usize) -> (r: Result<Option<T>, PositionError>)
        requires
            old(self).well_formed(),
        ensures
            final(self).well_formed(),
            final(self).field() == old(self).field(),
            if index < old(self).items().len() {
                &&& Self::removed_at(
                    old(self),
                    final(self),
                    index,
                    match r {
                        Ok(_) => None,
                        Err(e) => Some(e),
                    },
                )
                &&& r is Ok ==> r == Ok::<Option<T>, PositionError>(
                    Some(old(self).items()[index as int]),
                )
            } else {
                &&& r == Ok::<Option<T>, PositionError>(None)
                &&& final(self).items() == old(self).items()
                &&& *final(self).store() == *old(self).store()
            },
    {
        let len: usize = self.inner.items_ref().len();
        if index >= len {
            return Ok(None);
        }
        let last: usize = len - 1;
        let removed: T = self.inner.items_mut().swap_remove(index);
        assert(self.field() == old(self).field());
        let taken: &T = &removed;
        assert(call_requires(self.field(), (taken,)));
        let key: S::Key = (self.field)(taken);
        let ghost k = key;
        self.inner.store_mut().delete(key, &index);
        let ghost cleared = *self.store();
        proof {
            assert(old(self).is_key_of(&old(self).items()[index as int], &k));
        }
        if index == last {
            return Ok(Some(removed));
        }
        let moved: &T = &self.inner.items_ref()[index];
        assert(call_requires(self.field(), (moved,)));
        let old_key: S::Key = (self.field)(moved);
        let ghost ok = old_key;
        let moved: &T = &self.inner.items_ref()[index];
        assert(call_requires(self.field(), (moved,)));
        let new_key: S::Key = (self.field)(moved);
        let ghost nk = new_key;
        self.inner.store_mut().delete(old_key, &last);
        let r = self.inner.store_mut().insert(new_key, index);
        proof {
            assert(old(self).is_key_of(&old(self).items().last(), &ok));
            assert(old(self).is_key_of(&old(self).items().last(), &nk));
        }
        match r {
            Ok(_) => Ok(Some(removed)),
            Err(e) => Err(e),
        }
    }

    /// Whether `states` is a run of changes: from each state to the next the
    /// item at the position of that step has been changed and the index has
    /// followed it, none refused.
    pub open spec fn run_of_changes(states: Seq<Self>, positions: Seq<usize>) -> bool {
        forall|i: int|
            0 <= i < states.len() - 1 ==> (#[trigger] states[i]).well_formed() && Self::changed_at(
                &states[i],
                &states[i + 1],
                positions[i],
                None,
            )
    }

    /// Lets `update` change each item that is known for `key`, and says how
    /// many there were. The positions are those known when the call starts;
    /// they are gone through in their order, and the index follows each item
    /// as `update` of a single item has it. Where the index refuses the new
    /// key of an item, that item has changed, the ones after it have not,
    /// and the error is handed on.
    pub fn update_by_key<Q: Copy, U: Fn(&mut T)>(&mut self, key: Q, update: U) -> (r: Result<
        usize,
        PositionError,
    >) where S: Retriever<Q>
        requires
            old(self).well_formed(),
            forall|item: &mut T| call_requires(update, (item,)),
        ensures
            final(self).well_formed(),
            final(self).field() == old(self).field(),
            final(self).items().len() == old(self).items().len(),
            forall|j: int|
                0 <= j < old(self).items().len() && !old(self).store().positions_of(key).contains(
                    j as usize,
                ) ==> final(self).items()[j] == old(self).items()[j],
            r is Ok && old(self).store().positions_of(key).no_duplicates() ==> forall|p: usize|
                #[trigger] old(self).store().positions_of(key).contains(p) && p < old(self).items().len()
                    ==> exists|item: &mut T|
                    {
                        &&& *item == old(self).items()[p as int]
                        &&& *final(item) == final(self).items()[p as int]
                        &&& #[trigger] call_ensures(update, (item,), ())
                    },
            match r {
                Ok(count) => {
                    &&& count == found_at(
                        old(self).list().items_vec(),
                        old(self).store().positions_of(key),
                    ).len()
                    &&& exists|states: Seq<Self>|
                        {
                            &&& states.len() == old(self).store().positions_of(key).len() + 1
                            &&& states[0] == *old(self)
                            &&& states.last() == *final(self)
                            &&& #[trigger] Self::run_of_changes(
                                states,
                                old(self).store().positions_of(key),
                            )
                        }
                },
                Err(e) => exists|states: Seq<Self>|
                    {
                        &&& 0 < states.len() <= old(self).store().positions_of(key).len()
                        &&& states[0] == *old(self)
                        &&& #[trigger] Self::run_of_changes(
                            states,
                            old(self).store().positions_of(key),
                        )
                        &&& states.last().well_formed()
                        &&& Self::changed_at(
                            &states.last(),
                            final(self),
                            old(self).store().positions_of(key)[states.len() - 1],
                            Some(e),
                        )
                    },
            },
    {
        let positions: Vec<usize> = vstd::slice::slice_to_vec(
            self.inner.store_ref().pos_by_key(key),
        );
        let ghost items = self.items();
        let mut count: usize = 0;
        let mut i: usize = 0;
        let ghost each = |pos: usize| old(self).list().items_vec().item_at(pos);
        let ghost mut states: Seq<Self> = seq![*self];
        assert(positions@.take(0).filter_map(each) =~= Seq::<T>::empty());
        while i < positions.len()
            invariant
                i <= positions.len(),
                positions@ == old(self).store().positions_of(key),
                items == old(self).items(),
                each == |pos: usize| old(self).list().items_vec().item_at(pos),
                self.well_formed(),
                self.field() == old(self).field(),
                self.items().len() == items.len(),
                forall|item: &mut T| call_requires(update, (item,)),
                forall|j: int|
                    0 <= j < items.len() && !positions@.contains(j as usize) ==> self.items()[j]
                        == items[j],
                count == positions@.take(i as int).filter_map(each).len(),
                count <= i,
                states.len() == i + 1,
                states[0] == *old(self),
                states.last() == *self,
                Self::run_of_changes(states, positions@),
                forall|j: int|
                    0 <= j < items.len() && !positions@.take(i as int).contains(j as usize)
                        ==> self.items()[j] == items[j],
                positions@.no_duplicates() ==> forall|p: usize|
                    #[trigger] positions@.take(i as int).contains(p) && p < items.len()
                        ==> exists|item: &mut T|
                        {
                            &&& *item == items[p as int]
                            &&& *final(item) == self.items()[p as int]
                            &&& #[trigger] call_ensures(update, (item,), ())
                        },
            decreases positions.len() - i,
        {
            proof {
                positions@.lemma_filter_map_take_succ(each, i as int);
            }
            let ghost before = *self;
            match self.update_at(positions[i], &update) {
                Ok(found) => {
                    if found {
                        count = count + 1;
                    }
                },
                Err(e) => {
                    proof {
                        assert(states.last() == before);
                        assert(Self::run_of_changes(states, positions@));
                    }
                    return Err(e);
                },
            }
            proof {
                let run = states.push(*self);
                assert forall|j: int| 0 <= j < run.len() - 1 implies (#[trigger] run[j]).well_formed()
                    && Self::changed_at(&run[j], &run[j + 1], positions@[j], None) by {
                    if j < i {
                        assert(run[j] == states[j] && run[j + 1] == states[j + 1]);
                    } else {
                        assert(run[j] == before);
                    }
                }
                states = run;
                let done = positions@.take(i as int);
                let more = positions@.take(i + 1);
                assert(more =~= done.push(positions@[i as int]));
                assert forall|j: int|
                    0 <= j < items.len() && !more.contains(j as usize) implies self.items()[j]
                    == items[j] by {
                    assert(more[i as int] == positions@[i as int]);
                    assert(positions@[i as int] != j as usize);
                    if done.contains(j as usize) {
                        let at = choose|at: int| 0 <= at < done.len() && done[at] == j as usize;
                        assert(more[at] == j as usize);
                    }
                    assert(before.items()[j] == items[j]);
                }
                if positions@.no_duplicates() {
                    assert(!done.contains(positions@[i as int])) by {
                        if done.contains(positions@[i as int]) {
                            let at = choose|at: int|
                                0 <= at < done.len() && done[at] == positions@[i as int];
                            assert(positions@[at] == positions@[i as int]);
                        }
                    }
                    assert forall|p: usize| #[trigger] more.contains(p) && p < items.len() implies exists|item: &mut T|
                        {
                            &&& *item == items[p as int]
                            &&& *final(item) == self.items()[p as int]
                            &&& #[trigger] call_ensures(update, (item,), ())
                        } by {
                        if p == positions@[i as int] {
                            assert(before.items()[p as int] == items[p as int]);
                        } else {
                            let at = choose|at: int| 0 <= at < more.len() && more[at] == p;
                            assert(done[at] == p);
                            assert(done.contains(p));
                            assert(self.items()[p as int] == before.items()[p as int]);
                        }
                    }
                }
            }
            proof {
                assert forall|j: int|
                    0 <= j < items.len() && !positions@.contains(j as usize) implies self.items()[j]
                    == items[j] by {
                    assert(positions@[i as int] != j as usize);
                    assert(before.items()[j] == items[j]);
                }
            }
            i = i + 1;
        }
        proof {
            assert(positions@.take(positions@.len() as int) =~= positions@);
            assert(Self::run_of_changes(states, positions@));
        }
        Ok(count)
    }

    /// Whether no item is left to take out for `key`: no position is known
    /// for it, or the first of them has no item.
    pub open spec fn exhausted<Q: Copy>(list: &Self, key: Q) -> bool where S: Retriever<Q> {
        let positions = list.store().positions_of(key);
        positions.len() == 0 || positions[0] >= list.items().len()
    }

    /// Whether `states` is a run of removals for `key`: from each state to
    /// the next the item at the first position known for `key` has been
    /// taken out and the index has followed, none refused.
    pub open spec fn run_of_removals<Q: Copy>(states: Seq<Self>, key: Q) -> bool where
        S: Retriever<Q>,
     {
        forall|i: int|
            0 <= i < states.len() - 1 ==> {
                &&& (#[trigger] states[i]).well_formed()
                &&& !Self::exhausted(&states[i], key)
                &&& Self::removed_at(
                    &states[i],
                    &states[i + 1],
                    states[i].store().positions_of(key)[0],
                    None,
                )
            }
    }

    /// Takes out every item that is known for `key`, and says how many
    /// there were. Each time the item at the first position known for `key`
    /// is taken out as `remove` has it, until no position is known for
    /// `key` or the first of them has no item. Where the index refuses the
    /// new position of an item that moved, the error is handed on.
    pub fn remove_by_key<Q: Copy>(&mut self, key: Q) -> (r: Result<usize, PositionError>) where
        S: Retriever<Q>,

        requires
            old(self).well_formed(),
        ensures
            final(self).well_formed(),
            final(self).field() == old(self).field(),
            final(self).items().len() <= old(self).items().len(),
            match r {
                Ok(count) => {
                    &&& count == old(self).items().len() - final(self).items().len()
                    &&& Self::exhausted(final(self), key)
                    &&& exists|states: Seq<Self>|
                        {
                            &&& states.len() == count + 1
                            &&& states[0] == *old(self)
                            &&& states.last() == *final(self)
                            &&& #[trigger] Self::run_of_removals(states, key)
                        }
                },
                Err(e) => exists|states: Seq<Self>|
                    {
                        &&& states.len() > 0
                        &&& states[0] == *old(self)
                        &&& #[trigger] Self::run_of_removals(states, key)
                        &&& states.last().well_formed()
                        &&& !Self::exhausted(&states.last(), key)
                        &&& Self::removed_at(
                            &states.last(),
                            final(self),
                            states.last().store().positions_of(key)[0],
                            Some(e),
                        )
                    },
            },
    {
        let total: usize = self.inner.items_ref().len();
        let mut count: usize = 0;
        let ghost mut states: Seq<Self> = seq![*self];
        loop
            invariant
                self.well_formed(),
                self.field() == old(self).field(),
                total == old(self).items().len(),
                count + self.items().len() == total,
                states.len() == count + 1,
                states[0] == *old(self),
                states.last() == *self,
                Self::run_of_removals(states, key),
            ensures
                self.well_formed(),
                self.field() == old(self).field(),
                count + self.items().len() == old(self).items().len(),
                Self::exhausted(self, key),
                states.len() == count + 1,
                states[0] == *old(self),
                states.last() == *self,
                Self::run_of_removals(states, key),
            decreases self.items().len(),
        {
            let positions: &[usize] = self.inner.store_ref().pos_by_key(key);
            if positions.len() == 0 {
                break ;
            }
            let first: usize = positions[0];
            if first >= self.inner.items_ref().len() {
                break ;
            }
            let ghost before = *self;
            match self.remove(first) {
                Ok(_) => {
                    count = count + 1;
                },
                Err(e) => {
                    proof {
                        assert(states.last() == before);
                        assert(Self::run_of_removals(states, key));
                    }
                    return Err(e);
                },
            }
            proof {
                let run = states.push(*self);
                assert forall|j: int| 0 <= j < run.len() - 1 implies {
                    &&& (#[trigger] run[j]).well_formed()
                    &&& !Self::exhausted(&run[j], key)
                    &&& Self::removed_at(
                        &run[j],
                        &run[j + 1],
                        run[j].store().positions_of(key)[0],
                        None,
                    )
                } by {
                    if j < run.len() - 2 {
                        assert(run[j] == states[j] && run[j + 1] == states[j + 1]);
                    } else {
                        assert(run[j] == before);
                    }
                }
                states = run;
            }
        }
        proof {
            assert(Self::run_of_removals(states, key));
        }
        Ok(count)
    }
}

} // verus!

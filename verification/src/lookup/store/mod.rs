//! The interfaces for storing and reading key-to-position mappings.
pub mod item;
pub mod listing;
pub mod position;
pub mod view;

use vstd::prelude::*;
use crate::lookup::store::position::PositionError;
use crate::lookup::store::position::with_pos;
use crate::lookup::store::position::without_pos;

verus! {

/// The most keys that room is made for ahead of their arrival. A capacity is
/// a hint: what is asked for beyond this is made when the keys come.
pub const PRESIZE_LIMIT: usize = 65536;

/// The room that is made ahead for `capacity` keys.
pub fn presized(capacity: usize) -> (room: usize)
    ensures
        room == if capacity <= PRESIZE_LIMIT {
            capacity
        } else {
            PRESIZE_LIMIT
        },
{
    if capacity <= PRESIZE_LIMIT {
        capacity
    } else {
        PRESIZE_LIMIT
    }
}

/// The read side of an index: from a key to the positions that hold it.
pub trait Retriever<Q: Copy> {
    /// The positions known for `key`; none where the key is not known.
    spec fn positions_of(&self, key: Q) -> Seq<usize>;

    /// Whether any position is known for `key`.
    fn key_exist(&self, key: Q) -> (found: bool)
        ensures
            found <==> self.positions_of(key).len() > 0,
    ;

    /// All positions known for `key`; the empty slice where it is not known.
    fn pos_by_key(&self, key: Q) -> (s: &[usize])
        ensures
            s@ == self.positions_of(key),
    ;
}

impl<Q: Copy, R: Retriever<Q>> Retriever<Q> for &R {
    open spec fn positions_of(&self, key: Q) -> Seq<usize> {
        (**self).positions_of(key)
    }

    fn key_exist(&self, key: Q) -> (found: bool) {
        (**self).key_exist(key)
    }

    fn pos_by_key(&self, key: Q) -> (s: &[usize]) {
        (**self).pos_by_key(key)
    }
}

/// The positions of each of `keys` in turn, one after the other. A key that
/// occurs twice contributes its positions twice.
pub open spec fn positions_of_all<R: Retriever<Q>, Q: Copy>(lookup: &R, keys: Seq<Q>) -> Seq<usize> {
    keys.map_values(|key: Q| lookup.positions_of(key)).flatten()
}

/// The positions of the first of some keys come first.
pub proof fn lemma_positions_of_all_step<R: Retriever<Q>, Q: Copy>(lookup: &R, keys: Seq<Q>)
    requires
        keys.len() > 0,
    ensures
        positions_of_all(lookup, keys) == lookup.positions_of(keys[0]) + positions_of_all(
            lookup,
            keys.skip(1),
        ),
{
    let each = |key: Q| lookup.positions_of(key);
    assert(keys.map_values(each).drop_first() =~= keys.skip(1).map_values(each));
}

/// The lazy walk over the positions of several keys.
///
/// It holds the slice of the key it is at and a cursor into it, and fetches
/// the slice of the next key only when that one is used up. Keys without a
/// position are passed over. Nothing is collected in between.
pub struct Positions<'a, L, Q> {
    lookup: &'a L,
    keys: Vec<Q>,
    next_key: usize,
    current: &'a [usize],
    cursor: usize,
}

impl<'a, L: Retriever<Q>, Q: Copy> Positions<'a, L, Q> {
    /// The cursors lie within what they point into.
    pub closed spec fn well_formed(&self) -> bool {
        &&& self.next_key <= self.keys@.len()
        &&& self.cursor <= self.current@.len()
    }

    /// The index that is read.
    pub closed spec fn lookup(&self) -> &'a L {
        self.lookup
    }

    /// The positions that are still to come, in their order.
    pub closed spec fn remaining(&self) -> Seq<usize> {
        self.current@.skip(self.cursor as int) + positions_of_all(
            self.lookup,
            self.keys@.skip(self.next_key as int),
        )
    }

    /// The walk over the positions of `keys`, in the order of `keys`.
    pub fn new(lookup: &'a L, keys: Vec<Q>) -> (walk: Self)
        ensures
            walk.well_formed(),
            walk.lookup() == lookup,
            walk.remaining() == positions_of_all(lookup, keys@),
    {
        if keys.len() > 0 {
            let current: &'a [usize] = lookup.pos_by_key(keys[0]);
            proof {
                lemma_positions_of_all_step(lookup, keys@);
                assert(current@.skip(0) =~= current@);
            }
            Positions { lookup, keys, next_key: 1, current, cursor: 0 }
        } else {
            proof {
                assert(keys@.skip(0) =~= keys@);
                assert(keys@.map_values(|key: Q| lookup.positions_of(key)) =~= Seq::<
                    Seq<usize>,
                >::empty());
            }
            Positions { lookup, keys, next_key: 0, current: &[], cursor: 0 }
        }
    }

    /// The next position, or none when all have been handed out.
    pub fn next(&mut self) -> (pos: Option<usize>)
        requires
            old(self).well_formed(),
        ensures
            final(self).well_formed(),
            final(self).lookup() == old(self).lookup(),
            match pos {
                Some(p) => old(self).remaining().len() > 0 && p == old(self).remaining()[0]
                    && final(self).remaining() == old(self).remaining().skip(1),
                None => old(self).remaining().len() == 0 && final(self).remaining().len() == 0,
            },
    {
        if self.cursor < self.current.len() {
            let p: usize = self.current[self.cursor];
            self.cursor = self.cursor + 1;
            proof {
                let rest = positions_of_all(self.lookup, self.keys@.skip(self.next_key as int));
                assert((old(self).current@.skip(old(self).cursor as int) + rest).skip(1)
                    =~= self.current@.skip(self.cursor as int) + rest);
            }
            return Some(p);
        }
        loop
            invariant
                self.well_formed(),
                self.lookup == old(self).lookup,
                self.keys == old(self).keys,
                self.cursor == self.current@.len(),
                old(self).remaining() == positions_of_all(
                    self.lookup,
                    self.keys@.skip(self.next_key as int),
                ),
            decreases self.keys@.len() - self.next_key,
        {
            if self.next_key >= self.keys.len() {
                proof {
                    assert(self.keys@.skip(self.next_key as int).map_values(
                        |key: Q| self.lookup.positions_of(key),
                    ) =~= Seq::<Seq<usize>>::empty());
                }
                return None;
            }
            let key: Q = self.keys[self.next_key];
            let found: &'a [usize] = self.lookup.pos_by_key(key);
            proof {
                let ahead = self.keys@.skip(self.next_key as int);
                lemma_positions_of_all_step(self.lookup, ahead);
                assert(ahead.skip(1) =~= self.keys@.skip(self.next_key + 1));
            }
            self.next_key = self.next_key + 1;
            if found.len() > 0 {
                self.current = found;
                self.cursor = 1;
                proof {
                    let rest = positions_of_all(self.lookup, self.keys@.skip(self.next_key as int));
                    assert((found@ + rest).skip(1) =~= found@.skip(1) + rest);
                }
                return Some(found[0]);
            }
            proof {
                let rest = positions_of_all(self.lookup, self.keys@.skip(self.next_key as int));
                assert(found@ + rest =~= rest);
            }
        }
    }

    /// All positions that are still to come.
    pub fn collect(self) -> (all: Vec<usize>)
        requires
            self.well_formed(),
        ensures
            all@ == self.remaining(),
    {
        let mut walk = self;
        let mut all: Vec<usize> = Vec::new();
        loop
            invariant
                walk.well_formed(),
                all@ + walk.remaining() == self.remaining(),
            ensures
                walk.remaining().len() == 0,
            decreases walk.remaining().len(),
        {
            let ghost ahead = walk.remaining();
            match walk.next() {
                Some(p) => {
                    all.push(p);
                    assert(all@ + ahead.skip(1) =~= all@.drop_last() + ahead);
                },
                None => {
                    break ;
                },
            }
        }
        assert(all@ + walk.remaining() =~= all@);
        all
    }
}

/// Makes views of an index.
pub trait ViewCreator<'a> {
    /// What the keys of a view are chosen by.
    type Key;

    /// What a view of this index reads from.
    type Retriever;

    /// Whether `view` shows of `self` exactly the entries of `keys`.
    spec fn shows(&self, view: &crate::lookup::store::view::View<Self::Retriever>, keys: Seq<Self::Key>) -> bool;

    /// The view of the entries of `keys`. A key that is not stored, or that
    /// is given twice, changes nothing.
    fn create_view(&'a self, keys: Vec<Self::Key>) -> (view: crate::lookup::store::view::View<Self::Retriever>)
        ensures
            self.shows(&view, keys@),
    ;
}


/// The whole read side: a key's positions, and the walk over the positions of
/// many keys. Every `Retriever` has it.
pub trait Lookup<Q: Copy>: Retriever<Q> + Sized {
    /// The walk over the positions of each of `keys` in turn. A key that
    /// occurs twice gives its positions twice.
    fn pos_by_many_keys(&self, keys: Vec<Q>) -> (walk: Positions<'_, Self, Q>)
        ensures
            walk.well_formed(),
            walk.lookup() == self,
            walk.remaining() == positions_of_all(self, keys@),
    {
        Positions::new(self, keys)
    }
}

impl<Q: Copy, R: Retriever<Q>> Lookup<Q> for R {

}

/// The write side of an index.
pub trait Store: Sized {
    /// What items are looked up by.
    type Key;

    /// What every operation keeps: no key is held without a position, and
    /// each key's positions are as its discipline has them.
    spec fn well_formed(&self) -> bool;

    /// Whether two keys address the same entry.
    spec fn same_key(a: &Self::Key, b: &Self::Key) -> bool;

    /// The positions stored under `key`; none where the key is not stored.
    spec fn held(&self, key: &Self::Key) -> Seq<usize>;

    /// What becomes of an attempt to store `pos` under `key`.
    spec fn verdict(&self, key: &Self::Key, pos: usize) -> Result<(), PositionError>;

    /// Stores `pos` under `key`. Where the key's discipline does not take
    /// another position, nothing changes and the error says so.
    fn insert(&mut self, key: Self::Key, pos: usize) -> (r: Result<(), PositionError>)
        requires
            old(self).well_formed(),
        ensures
            final(self).well_formed(),
            r == old(self).verdict(&key, pos),
            forall|k: Self::Key|
                #[trigger] final(self).held(&k) == if r is Ok && Self::same_key(&k, &key) {
                    with_pos(old(self).held(&k), pos)
                } else {
                    old(self).held(&k)
                },
    ;

    /// Takes `pos` away from `key`. A key or a position that is not stored
    /// makes this a no-op.
    fn delete(&mut self, key: Self::Key, pos: &usize)
        requires
            old(self).well_formed(),
        ensures
            final(self).well_formed(),
            forall|k: Self::Key|
                #[trigger] final(self).held(&k) == if Self::same_key(&k, &key) {
                    without_pos(old(self).held(&k), *pos)
                } else {
                    old(self).held(&k)
                },
    ;

    /// The key of the item at `pos` changed: `pos` is taken away from
    /// `old_key` and then stored under `new_key`. The two steps are not
    /// atomic: where the second is refused, the first has still happened and
    /// `pos` is no longer stored.
    fn update(&mut self, old_key: Self::Key, pos: usize, new_key: Self::Key) -> (r: Result<
        (),
        PositionError,
    >)
        requires
            old(self).well_formed(),
        ensures
            final(self).well_formed(),
            exists|between: Self|
                {
                    &&& #[trigger] between.well_formed()
                    &&& forall|k: Self::Key|
                        #[trigger] between.held(&k) == if Self::same_key(&k, &old_key) {
                            without_pos(old(self).held(&k), pos)
                        } else {
                            old(self).held(&k)
                        }
                    &&& r == between.verdict(&new_key, pos)
                    &&& forall|k: Self::Key|
                        #[trigger] final(self).held(&k) == if r is Ok && Self::same_key(
                            &k,
                            &new_key,
                        ) {
                            with_pos(between.held(&k), pos)
                        } else {
                            between.held(&k)
                        }
                },
    {
        self.delete(old_key, &pos);
        let ghost between = *self;
        let r = self.insert(new_key, pos);
        assert(between.well_formed());
        r
    }

    /// An empty store with room for `capacity` keys.
    fn with_capacity(capacity: usize) -> (store: Self)
        ensures
            store.well_formed(),
            forall|k: Self::Key| (#[trigger] store.held(&k)).len() == 0,
    ;
}

/// Whether `after` is `before` with `pos` stored under `key`.
pub open spec fn stored_under<S: Store>(before: &S, after: &S, key: &S::Key, pos: usize) -> bool {
    forall|k: S::Key| #[trigger]
        after.held(&k) == if S::same_key(&k, key) {
            with_pos(before.held(&k), pos)
        } else {
            before.held(&k)
        }
}

/// Whether `after` is `before` with `pos` taken away from `key`.
pub open spec fn taken_from<S: Store>(before: &S, after: &S, key: &S::Key, pos: usize) -> bool {
    forall|k: S::Key| #[trigger]
        after.held(&k) == if S::same_key(&k, key) {
            without_pos(before.held(&k), pos)
        } else {
            before.held(&k)
        }
}

/// Whether `after` holds what `before` holds.
pub open spec fn same_held<S: Store>(before: &S, after: &S) -> bool {
    forall|k: S::Key| #[trigger] after.held(&k) == before.held(&k)
}

/// Whether the index went from `before` to `after` as it does when an
/// item that stood at `old_pos` under `old_key` now stands at `new_pos`
/// under `new_key`: the old position is taken away from the old key and
/// then the new one is stored under the new key, unless that is
/// `refused`.
pub open spec fn rekeyed<S: Store>(
    before: &S,
    after: &S,
    old_key: &S::Key,
    old_pos: usize,
    new_key: &S::Key,
    new_pos: usize,
    refused: Option<PositionError>,
) -> bool {
    exists|between: S|
        {
            &&& #[trigger] between.well_formed()
            &&& taken_from(before, &between, old_key, old_pos)
            &&& match refused {
                None => between.verdict(new_key, new_pos) is Ok && stored_under(
                    &between,
                    after,
                    new_key,
                    new_pos,
                ),
                Some(e) => between.verdict(new_key, new_pos) == Err::<(), PositionError>(e)
                    && same_held(&between, after),
            }
        }
}

} // verus!

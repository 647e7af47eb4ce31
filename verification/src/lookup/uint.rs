//! An index that is addressed by the key itself and grows exactly as far as
//! its greatest key.
//!
//! It suits consecutive numbers that start at 0 or 1, such as primary keys.
//! The greatest occupied slot is tracked, so that the keys can be walked
//! without crossing the unused end of the array.
use vstd::prelude::*;
use crate::lookup::index::grow;
use crate::lookup::index::key_of;
use crate::lookup::index::lemma_keys_skip_empty;
use crate::lookup::index::stored_keys;
use crate::lookup::index::IndexKey;
use crate::lookup::store::position::KeyPosition;
use crate::lookup::store::position::KeyPositionAsSlice;
use crate::lookup::store::position::PositionError;
use crate::lookup::store::position::ascending;
use crate::lookup::store::position::with_pos;
use crate::lookup::store::position::without_pos;
use crate::lookup::store::Retriever;
use crate::lookup::store::stored_under;
use crate::lookup::store::taken_from;
use crate::lookup::store::Store;

verus! {

/// One slot per key: empty, or the key with its positions; and the greatest
/// occupied slot, which is 0 where none is occupied.
#[derive(Debug, Clone)]
pub struct UIntLookup<P, K = usize> {
    inner: Vec<Option<(K, P)>>,
    max_index: usize,
}

/// An index with at most one position per key.
pub type UniqueUIntLookup<K = usize> = UIntLookup<Option<usize>, K>;

/// An index with any number of positions per key.
pub type MultiUIntLookup<K = usize> = UIntLookup<Vec<usize>, K>;

impl<P: KeyPositionAsSlice, K: IndexKey> UIntLookup<P, K> {
    /// The slots, each empty or holding a key and its positions.
    pub closed spec fn slots(&self) -> Seq<Option<(K, P)>> {
        self.inner@
    }

    /// The greatest occupied slot as tracked; 0 where none is occupied.
    pub closed spec fn greatest(&self) -> usize {
        self.max_index
    }

    /// Whether slot `i` holds a key.
    pub open spec fn occupied(&self, i: int) -> bool {
        0 <= i < self.slots().len() && self.slots()[i] is Some
    }

    /// The positions in slot `i`; none where the slot is empty or beyond the
    /// array.
    pub open spec fn positions_at(&self, i: int) -> Seq<usize> {
        if self.occupied(i) {
            self.slots()[i].unwrap().1.positions()
        } else {
            Seq::empty()
        }
    }

    /// The key in slot `i`, where it is occupied.
    pub open spec fn key_at(&self, i: int) -> K {
        self.slots()[i].unwrap().0
    }

    /// There is at least one slot; every key stands in the slot that it
    /// names with at least one position; and no slot beyond the greatest is
    /// occupied, which itself is occupied unless it is 0.
    pub open spec fn structured(&self) -> bool {
        &&& self.greatest() < self.slots().len()
        &&& forall|i: int| #[trigger]
            self.occupied(i) ==> self.key_at(i).slot() == i && self.positions_at(i).len() > 0
        &&& forall|i: int| #[trigger] self.occupied(i) ==> i <= self.greatest()
        &&& self.greatest() == 0 || self.occupied(self.greatest() as int)
    }

    /// How the slots go from `before` to `after` when `pos` is stored under
    /// `key`, or refused: the array grows only where the key is taken and
    /// does not fit, and then just as far as the key; the slot of a key that
    /// is taken becomes occupied and gains `pos`, and no other slot changes;
    /// a key that was already stored stays in its slot; the greatest
    /// occupied slot rises to the key's where that lies beyond it.
    pub open spec fn grown_by(before: &Self, after: &Self, key: K, pos: usize, taken: bool) -> bool {
        &&& after.slots().len() == if taken && key.slot() >= before.slots().len() {
            key.slot() + 1
        } else {
            before.slots().len() as int
        }
        &&& after.greatest() == if taken && key.slot() > before.greatest() {
            key.slot()
        } else {
            before.greatest()
        }
        &&& forall|i: int| #[trigger]
            after.occupied(i) <==> before.occupied(i) || (taken && i == key.slot())
        &&& forall|i: int| #[trigger] before.occupied(i) ==> after.key_at(i) == before.key_at(i)
        &&& taken && !before.occupied(key.slot() as int) ==> after.key_at(key.slot() as int) == key
        &&& forall|i: int| #[trigger]
            after.positions_at(i) == if taken && i == key.slot() {
                with_pos(before.positions_at(i), pos)
            } else {
                before.positions_at(i)
            }
    }

    /// How the slots go from `before` to `after` when `pos` is taken away
    /// from `key`: the array keeps its length; the slot of the key loses
    /// `pos` and is cleared exactly when its last position left, and no
    /// other slot changes.
    pub open spec fn shrunk_by(before: &Self, after: &Self, key: K, pos: usize) -> bool {
        &&& after.slots().len() == before.slots().len()
        &&& forall|i: int| #[trigger]
            after.occupied(i) <==> before.occupied(i) && !(i == key.slot() && without_pos(
                before.positions_at(i),
                pos,
            ).len() == 0)
        &&& forall|i: int| #[trigger] after.occupied(i) ==> after.key_at(i) == before.key_at(i)
        &&& forall|i: int| #[trigger]
            after.positions_at(i) == if i == key.slot() {
                without_pos(before.positions_at(i), pos)
            } else {
                before.positions_at(i)
            }
    }

    /// The greatest occupied slot, as tracked; 0 where none is occupied.
    pub fn max_index(&self) -> (i: usize)
        ensures
            i == self.greatest(),
    {
        self.max_index
    }

    /// The greatest occupied slot, found by walking down from the end of the
    /// array; 0 where none is occupied.
    pub fn find_new_max_index(&self) -> (at: usize)
        ensures
            forall|i: int| #[trigger] self.occupied(i) ==> i <= at,
            at == 0 || self.occupied(at as int),
    {
        let mut at: usize = self.inner.len();
        while at > 0
            invariant
                at <= self.inner@.len(),
                forall|i: int| at <= i < self.inner@.len() ==> self.inner@[i] is None,
            decreases at,
        {
            at = at - 1;
            if self.inner[at].is_some() {
                return at;
            }
        }
        0
    }

    /// The view of this index that offers the keys.
    pub fn ext(&self) -> (e: UIntLookupExt<'_, P, K>)
        ensures
            e.0 == self,
    {
        UIntLookupExt(self)
    }
}

/// What this index offers beyond the common read side: its keys in ascending
/// order of their slots, and the first and last of them.
pub struct UIntLookupExt<'a, P, K = usize>(pub &'a UIntLookup<P, K>);

impl<'a, P: KeyPositionAsSlice, K: IndexKey> UIntLookupExt<'a, P, K> {
    /// All stored keys, in ascending order of their slots. The slots beyond
    /// the greatest occupied one are not visited.
    pub fn keys(&self) -> (keys: Vec<K>)
        requires
            self.0.structured(),
        ensures
            keys@ == stored_keys(self.0.slots()),
    {
        let mut keys: Vec<K> = Vec::new();
        let ghost slots = self.0.slots();
        let high: usize = self.0.max_index;
        let mut i: usize = 0;
        while i <= high
            invariant
                slots == self.0.inner@,
                i <= high + 1 <= slots.len(),
                high < self.0.inner.len(),
                keys@ == stored_keys(slots.take(i as int)),
            decreases high + 1 - i,
        {
            proof {
                slots.lemma_filter_map_take_succ(key_of(), i as int);
            }
            match &self.0.inner[i] {
                Some(entry) => {
                    keys.push(entry.0);
                },
                None => {
                    assert(keys@ + Seq::<K>::empty() =~= keys@);
                },
            }
            i = i + 1;
        }
        proof {
            assert forall|i: int| high + 1 <= i < slots.len() implies slots[i] is None by {
                assert(!self.0.occupied(i));
            }
            lemma_keys_skip_empty(slots, high + 1, slots.len() as int);
            assert(slots.take(slots.len() as int) =~= slots);
        }
        keys
    }

    /// The key of the first occupied slot; none where the index is empty.
    pub fn min_key(&self) -> (key: Option<K>)
        ensures
            key is None <==> forall|i: int| !#[trigger] self.0.occupied(i),
            key is Some ==> exists|at: int|
                {
                    &&& #[trigger] self.0.occupied(at)
                    &&& self.0.key_at(at) == key.unwrap()
                    &&& forall|i: int| #[trigger] self.0.occupied(i) ==> at <= i
                },
    {
        let mut i: usize = 0;
        while i < self.0.inner.len()
            invariant
                i <= self.0.inner@.len(),
                forall|j: int| 0 <= j < i ==> self.0.inner@[j] is None,
            decreases self.0.inner.len() - i,
        {
            match &self.0.inner[i] {
                Some(entry) => {
                    assert(self.0.occupied(i as int));
                    return Some(entry.0);
                },
                None => {},
            }
            i = i + 1;
        }
        None
    }

    /// The key of the last occupied slot; none where the index is empty.
    pub fn max_key(&self) -> (key: Option<K>)
        requires
            self.0.structured(),
        ensures
            key is None <==> forall|i: int| !#[trigger] self.0.occupied(i),
            key is Some ==> exists|at: int|
                {
                    &&& #[trigger] self.0.occupied(at)
                    &&& self.0.key_at(at) == key.unwrap()
                    &&& forall|i: int| #[trigger] self.0.occupied(i) ==> i <= at
                },
    {
        match &self.0.inner[self.0.max_index] {
            Some(entry) => {
                assert(self.0.occupied(self.0.max_index as int));
                Some(entry.0)
            },
            None => {
                assert forall|i: int| !#[trigger] self.0.occupied(i) by {
                    if self.0.occupied(i) {
                        assert(i <= self.0.greatest());
                    }
                }
                None
            },
        }
    }
}

impl<P: KeyPositionAsSlice, K: IndexKey> Retriever<K> for UIntLookup<P, K> {
    open spec fn positions_of(&self, key: K) -> Seq<usize> {
        self.positions_at(key.slot() as int)
    }

    fn key_exist(&self, key: K) -> (found: bool) {
        self.pos_by_key(key).len() > 0
    }

    fn pos_by_key(&self, key: K) -> (s: &[usize]) {
        let idx: usize = key.index();
        if idx < self.inner.len() {
            match &self.inner[idx] {
                Some(entry) => entry.1.as_slice(),
                None => &[],
            }
        } else {
            &[]
        }
    }
}

impl<P: KeyPosition, K: IndexKey> Store for UIntLookup<P, K> {
    type Key = K;

    open spec fn well_formed(&self) -> bool {
        &&& self.structured()
        &&& forall|i: int| #[trigger] self.occupied(i) ==> P::holds(self.positions_at(i))
    }

    open spec fn same_key(a: &K, b: &K) -> bool {
        a.slot() == b.slot()
    }

    open spec fn held(&self, key: &K) -> Seq<usize> {
        self.positions_at(key.slot() as int)
    }

    open spec fn verdict(&self, key: &K, pos: usize) -> Result<(), PositionError> {
        if key.slot() >= self.slots().len() && key.slot() == usize::MAX {
            Err(PositionError::OutOfRange)
        } else if self.held(key).len() == 0 || P::accepts(self.held(key), pos) {
            Ok(())
        } else {
            Err(PositionError::Occupied)
        }
    }

    /// Beyond what the trait says, the slots change as `grown_by` has it.
    fn insert(&mut self, key: K, pos: usize) -> (r: Result<(), PositionError>)
        ensures
            Self::grown_by(old(self), final(self), key, pos, r is Ok),
    {
        let idx: usize = key.index();
        if self.inner.len() <= idx {
            if idx == usize::MAX {
                return Err(PositionError::OutOfRange);
            }
            grow(&mut self.inner, idx + 1);
        }
        proof {
            assert forall|i: int| #[trigger] self.occupied(i) <==> old(self).occupied(i) by {}
            assert(self.occupied(idx as int) ==> P::holds(self.positions_at(idx as int)));
        }
        let ghost grown = *self;
        let r: Result<(), PositionError> = match &mut self.inner[idx] {
            Some(entry) => entry.1.add_pos(pos),
            None => {
                self.inner[idx] = Some((key, P::from_pos(pos)));
                Ok(())
            },
        };
        if r.is_ok() && self.max_index < idx {
            self.max_index = idx;
        }
        proof {
            assert(old(self).occupied(idx as int) <==> old(self).held(&key).len() > 0);
            assert forall|i: int| #[trigger]
                self.positions_at(i) == if r is Ok && i == idx {
                    with_pos(old(self).positions_at(i), pos)
                } else {
                    old(self).positions_at(i)
                } by {
                if i != idx {
                    assert(self.occupied(i) <==> grown.occupied(i));
                    assert(grown.occupied(i) <==> old(self).occupied(i));
                } else {
                    assert(self.held(&key) == self.positions_at(i));
                    assert(old(self).held(&key) == old(self).positions_at(i));
                }
            }
            assert forall|i: int| #[trigger] self.occupied(i) <==> (old(self).occupied(i) || (r is Ok
                && i == idx)) by {
                if i != idx {
                    assert(self.occupied(i) <==> grown.occupied(i));
                    assert(grown.occupied(i) <==> old(self).occupied(i));
                }
            }
            assert forall|i: int| #[trigger] self.occupied(i) implies self.key_at(i).slot() == i
                && self.positions_at(i).len() > 0 && P::holds(self.positions_at(i)) && i
                <= self.greatest() by {
                if i != idx {
                    assert(grown.occupied(i));
                    assert(old(self).occupied(i));
                } else if grown.occupied(i) {
                    assert(old(self).occupied(i));
                }
            }
            if self.greatest() != 0 {
                if self.greatest() == old(self).greatest() {
                    assert(old(self).occupied(old(self).greatest() as int));
                }
            }
            assert(self.structured());
        }
        r
    }

    /// Beyond what the trait says, the slots change as `shrunk_by` has it;
    /// the greatest occupied slot is found anew where it was the one
    /// cleared.
    fn delete(&mut self, key: K, pos: &usize)
        ensures
            Self::shrunk_by(old(self), final(self), key, *pos),
    {
        let idx: usize = key.index();
        if idx >= self.inner.len() {
            proof {
                assert(!old(self).occupied(idx as int));
                assert(without_pos(Seq::<usize>::empty(), *pos) =~= Seq::<usize>::empty());
            }
            return ;
        }
        proof {
            assert(self.occupied(idx as int) ==> P::holds(self.positions_at(idx as int)));
            assert(without_pos(Seq::<usize>::empty(), *pos) =~= Seq::<usize>::empty());
        }
        let emptied: bool = match &mut self.inner[idx] {
            Some(entry) => entry.1.remove_pos(pos),
            None => false,
        };
        if emptied {
            self.inner[idx] = None;
            if self.max_index == idx {
                let ghost cleared = *self;
                self.max_index = self.find_new_max_index();
                proof {
                    assert forall|i: int| #[trigger] self.occupied(i) implies i
                        <= self.greatest() by {
                        assert(cleared.occupied(i));
                    }
                    assert(self.greatest() == 0 || cleared.occupied(self.greatest() as int));
                }
            }
        }
        proof {
            assert forall|i: int| #[trigger] self.occupied(i) <==> old(self).occupied(i) && !(i
                == idx && emptied) by {}
            assert forall|i: int| #[trigger]
                self.positions_at(i) == if i == idx {
                    without_pos(old(self).positions_at(i), *pos)
                } else {
                    old(self).positions_at(i)
                } by {
                if i == idx {
                    assert(self.held(&key) == self.positions_at(i));
                    assert(old(self).held(&key) == old(self).positions_at(i));
                }
            }
            assert forall|i: int| #[trigger] self.occupied(i) implies self.key_at(i).slot() == i
                && self.positions_at(i).len() > 0 && P::holds(self.positions_at(i)) && i
                <= self.greatest() by {
                assert(old(self).occupied(i));
            }
            if self.greatest() != 0 && self.greatest() == old(self).greatest() {
                assert(old(self).occupied(old(self).greatest() as int));
            }
            assert(self.structured());
        }
    }

    /// There is one slot more than `capacity`, as far as the array can
    /// count.
    fn with_capacity(capacity: usize) -> (store: Self)
        ensures
            store.slots().len() == if capacity < usize::MAX {
                capacity + 1
            } else {
                capacity as int
            },
            store.greatest() == 0,
    {
        let mut inner: Vec<Option<(K, P)>> = Vec::new();
        grow(
            &mut inner,
            if capacity < usize::MAX {
                capacity + 1
            } else {
                capacity
            },
        );
        UIntLookup { inner, max_index: 0 }
    }
}

/// Round trip: a position that was stored under a key is among the positions
/// read for that key, and once it has been taken away again it is not.
pub proof fn lemma_uint_round_trip<P: KeyPosition, K: IndexKey>(
    before: UIntLookup<P, K>,
    stored: UIntLookup<P, K>,
    cleared: UIntLookup<P, K>,
    key: K,
    pos: usize,
)
    requires
        before.well_formed(),
        stored_under(&before, &stored, &key, pos),
        taken_from(&stored, &cleared, &key, pos),
    ensures
        stored.positions_of(key).contains(pos),
        !cleared.positions_of(key).contains(pos),
{
    assert(stored.held(&key) == with_pos(before.held(&key), pos));
    assert(cleared.held(&key) == without_pos(stored.held(&key), pos));
    crate::lookup::store::position::lemma_with_pos_has(before.held(&key), pos);
    crate::lookup::store::position::lemma_without_pos_lacks(stored.held(&key), pos);
}

/// Idempotent delete: taking away a position that is not stored under the
/// key leaves every slot as it was, and the greatest occupied slot with
/// them.
pub proof fn lemma_uint_delete_absent<P: KeyPosition, K: IndexKey>(
    before: UIntLookup<P, K>,
    after: UIntLookup<P, K>,
    key: K,
    pos: usize,
)
    requires
        before.well_formed(),
        after.well_formed(),
        UIntLookup::shrunk_by(&before, &after, key, pos),
        !before.positions_of(key).contains(pos),
    ensures
        after.slots().len() == before.slots().len(),
        forall|i: int| after.occupied(i) == before.occupied(i),
        forall|i: int| #[trigger] before.occupied(i) ==> after.key_at(i) == before.key_at(i),
        forall|i: int| after.positions_at(i) == before.positions_at(i),
        after.greatest() == before.greatest(),
{
    crate::lookup::store::position::lemma_without_pos_absent(before.held(&key), pos);
    assert forall|i: int| after.occupied(i) == before.occupied(i) by {
        if i == key.slot() && before.occupied(i) {
            assert(before.positions_at(i).len() > 0);
        }
    }
    if before.greatest() != 0 {
        assert(before.occupied(before.greatest() as int));
        assert(after.occupied(before.greatest() as int));
    }
    if after.greatest() != 0 {
        assert(after.occupied(after.greatest() as int));
        assert(before.occupied(after.greatest() as int));
    }
}

/// Multi ordering: whatever the order in which positions were stored, the
/// positions read for a key ascend strictly, so none comes twice; and
/// storing one more leaves exactly the old ones and the new one.
pub proof fn lemma_uint_multi_ordering<K: IndexKey>(
    before: UIntLookup<Vec<usize>, K>,
    after: UIntLookup<Vec<usize>, K>,
    key: K,
    pos: usize,
)
    requires
        before.well_formed(),
        stored_under(&before, &after, &key, pos),
    ensures
        ascending(before.positions_of(key)),
        ascending(after.positions_of(key)),
        forall|p: usize|
            after.positions_of(key).contains(p) <==> before.positions_of(key).contains(p) || p
                == pos,
{
    assert(before.occupied(key.slot() as int) ==> ascending(before.positions_at(key.slot() as int)));
    assert(after.held(&key) == with_pos(before.held(&key), pos));
    crate::lookup::store::position::lemma_with_pos_holds(before.held(&key), pos);
}

/// Unique exclusivity: a key that holds a position takes no second one.
pub proof fn lemma_uint_unique_exclusive<K: IndexKey>(
    index: UIntLookup<Option<usize>, K>,
    key: K,
    pos: usize,
)
    requires
        index.well_formed(),
        index.positions_of(key).len() > 0,
    ensures
        index.verdict(&key, pos) == Err::<(), PositionError>(PositionError::Occupied),
{
}

} // verus!

//! An index that is addressed by the key itself: the key names a slot of a
//! growable array.
//!
//! It suits keys that are small consecutive numbers (primary keys, small
//! enumerations). Gaps cost memory, and the first and last occupied slots are
//! tracked so that walking the keys does not have to cross the unused ends.
use vstd::prelude::*;
use crate::lookup::store::position::KeyPosition;
use crate::lookup::store::position::KeyPositionAsSlice;
use crate::lookup::store::position::PositionError;
use crate::lookup::store::position::ascending;
use crate::lookup::store::position::with_pos;
use crate::lookup::store::position::without_pos;
use crate::lookup::store::Retriever;
use crate::lookup::store::presized;
use crate::lookup::store::stored_under;
use crate::lookup::store::taken_from;
use crate::lookup::store::Store;
use crate::lookup::store::ViewCreator;

verus! {

/// By how many slots the array grows beyond a key that does not fit.
pub const PRE_ALLOC_SIZE: usize = 100;

/// A key that names a slot.
pub trait IndexKey: Copy {
    /// The slot that the key names.
    spec fn slot(self) -> usize;

    /// The slot that the key names.
    fn index(self) -> (i: usize)
        ensures
            i == self.slot(),
    ;
}

impl IndexKey for usize {
    open spec fn slot(self) -> usize {
        self
    }

    fn index(self) -> (i: usize) {
        self
    }
}

impl IndexKey for u8 {
    open spec fn slot(self) -> usize {
        self as usize
    }

    fn index(self) -> (i: usize) {
        self as usize
    }
}

impl IndexKey for u16 {
    open spec fn slot(self) -> usize {
        self as usize
    }

    fn index(self) -> (i: usize) {
        self as usize
    }
}

impl IndexKey for u32 {
    open spec fn slot(self) -> usize {
        self as usize
    }

    fn index(self) -> (i: usize) {
        self as usize
    }
}

/// One slot per key: empty, or the key with its positions.
#[derive(Debug, Clone)]
pub struct IndexLookup<K, P> {
    slots: Vec<Option<(K, P)>>,
    bounds: Option<(usize, usize)>,
}

/// An index with at most one position per key.
pub type UniquePosIndex<K = usize> = IndexLookup<K, Option<usize>>;

/// An index with any number of positions per key.
pub type MultiPosIndex<K = usize> = IndexLookup<K, Vec<usize>>;

impl<K: IndexKey, P: KeyPositionAsSlice> IndexLookup<K, P> {
    /// The slots, each empty or holding a key and its positions.
    pub closed spec fn slots(&self) -> Seq<Option<(K, P)>> {
        self.slots@
    }

    /// The first and the last occupied slot, as tracked.
    pub closed spec fn bounds(&self) -> Option<(usize, usize)> {
        self.bounds
    }

    /// Whether slot `i` holds a key.
    pub open spec fn occupied(&self, i: int) -> bool {
        0 <= i < self.slots().len() && self.slots()[i] is Some
    }

    /// The positions in slot `i`; none where the slot is empty or beyond the
    /// array.
    pub open spec fn positions_at(&self, i: int) -> Seq<usize> {
        if self.occupied(i) {
            self.slots()[i].unwrap().1.positions()
        } else {
            Seq::empty()
        }
    }

    /// The key in slot `i`, where it is occupied.
    pub open spec fn key_at(&self, i: int) -> K {
        self.slots()[i].unwrap().0
    }

    /// Every key stands in the slot that it names with at least one
    /// position, and the bounds are the first and the last occupied slot:
    /// unset exactly when no slot is occupied.
    pub open spec fn structured(&self) -> bool {
        &&& forall|i: int| #[trigger]
            self.occupied(i) ==> self.key_at(i).slot() == i && self.positions_at(i).len() > 0
        &&& match self.bounds() {
            None => forall|i: int| !#[trigger] self.occupied(i),
            Some((low, high)) => {
                &&& low <= high
                &&& self.occupied(low as int)
                &&& self.occupied(high as int)
                &&& forall|i: int| #[trigger] self.occupied(i) ==> low <= i <= high
            },
        }
    }
}

impl<K: IndexKey, P: KeyPositionAsSlice> IndexLookup<K, P> {
    /// How the slots go from `before` to `after` when `pos` is stored under
    /// `key`, or refused: the array grows only where the key is taken and
    /// does not fit, and then to `PRE_ALLOC_SIZE` slots beyond the key; the
    /// slot of a key that is taken becomes occupied and gains `pos`, and no
    /// other slot changes; a key that was already stored stays in its slot.
    pub open spec fn grown_by(before: &Self, after: &Self, key: K, pos: usize, taken: bool) -> bool {
        &&& after.slots().len() == if taken && key.slot() >= before.slots().len() {
            key.slot() + PRE_ALLOC_SIZE
        } else {
            before.slots().len() as int
        }
        &&& forall|i: int| #[trigger]
            after.occupied(i) <==> before.occupied(i) || (taken && i == key.slot())
        &&& forall|i: int| #[trigger] before.occupied(i) ==> after.key_at(i) == before.key_at(i)
        &&& taken && !before.occupied(key.slot() as int) ==> after.key_at(key.slot() as int) == key
        &&& forall|i: int| #[trigger]
            after.positions_at(i) == if taken && i == key.slot() {
                with_pos(before.positions_at(i), pos)
            } else {
                before.positions_at(i)
            }
    }

    /// How the slots go from `before` to `after` when `pos` is taken away
    /// from `key`: the array keeps its length; the slot of the key loses
    /// `pos` and is cleared exactly when its last position left, and no
    /// other slot changes.
    pub open spec fn shrunk_by(before: &Self, after: &Self, key: K, pos: usize) -> bool {
        &&& after.slots().len() == before.slots().len()
        &&& forall|i: int| #[trigger]
            after.occupied(i) <==> before.occupied(i) && !(i == key.slot() && without_pos(
                before.positions_at(i),
                pos,
            ).len() == 0)
        &&& forall|i: int| #[trigger] after.occupied(i) ==> after.key_at(i) == before.key_at(i)
        &&& forall|i: int| #[trigger]
            after.positions_at(i) == if i == key.slot() {
                without_pos(before.positions_at(i), pos)
            } else {
                before.positions_at(i)
            }
    }
}

impl<K: IndexKey> IndexLookup<K, Option<usize>> {
    /// An empty index with at most one position per key.
    pub fn with_unique_key() -> (store: Self)
        ensures
            store.well_formed(),
            forall|i: int| !#[trigger] store.occupied(i),
    {
        IndexLookup { slots: Vec::new(), bounds: None }
    }
}

impl<K: IndexKey> IndexLookup<K, Vec<usize>> {
    /// An empty index with any number of positions per key.
    pub fn with_multi_keys() -> (store: Self)
        ensures
            store.well_formed(),
            forall|i: int| !#[trigger] store.occupied(i),
    {
        IndexLookup { slots: Vec::new(), bounds: None }
    }
}

/// The bounds widened to take in `idx`.
fn widened(bounds: Option<(usize, usize)>, idx: usize) -> (wide: Option<(usize, usize)>)
    ensures
        wide == match bounds {
            None => Some((idx, idx)),
            Some((low, high)) => Some(
                (
                    if idx < low {
                        idx
                    } else {
                        low
                    },
                    if idx > high {
                        idx
                    } else {
                        high
                    },
                ),
            ),
        },
{
    match bounds {
        None => Some((idx, idx)),
        Some((low, high)) => Some(
            (
                if idx < low {
                    idx
                } else {
                    low
                },
                if idx > high {
                    idx
                } else {
                    high
                },
            ),
        ),
    }
}

impl<'a, K: IndexKey, P: KeyPositionAsSlice + 'a> ViewCreator<'a> for IndexLookup<K, P> {
    type Key = K;

    type Retriever = IndexLookup<K, &'a P>;

    /// The view has the slots of the index; one is occupied where the index
    /// has an entry that one of `keys` names, and holds that entry.
    open spec fn shows(
        &self,
        view: &crate::lookup::store::view::View<IndexLookup<K, &'a P>>,
        keys: Seq<K>,
    ) -> bool {
        let shown = view.retriever();
        &&& self.structured() ==> shown.structured()
        &&& shown.slots().len() == self.slots().len()
        &&& forall|i: int| #[trigger]
            shown.occupied(i) <==> self.occupied(i) && exists|j: int|
                0 <= j < keys.len() && (#[trigger] keys[j]).slot() == i
        &&& forall|i: int| #[trigger]
            shown.occupied(i) ==> shown.key_at(i) == self.key_at(i) && shown.positions_at(i)
                == self.positions_at(i)
    }

    fn create_view(&'a self, keys: Vec<K>) -> (view: crate::lookup::store::view::View<
        IndexLookup<K, &'a P>,
    >) {
        let n: usize = self.slots.len();
        let mut slots: Vec<Option<(K, &'a P)>> = Vec::new();
        grow(&mut slots, n);
        let mut bounds: Option<(usize, usize)> = None;
        let mut j: usize = 0;
        while j < keys.len()
            invariant
                j <= keys.len(),
                n == self.slots@.len(),
                slots@.len() == n,
                forall|i: int|
                    0 <= i < n ==> ((#[trigger] slots@[i]) is Some <==> self.slots@[i] is Some
                        && exists|jj: int| 0 <= jj < j && (#[trigger] keys@[jj]).slot() == i),
                forall|i: int|
                    0 <= i < n && (#[trigger] slots@[i]) is Some ==> slots@[i].unwrap().0
                        == self.slots@[i].unwrap().0 && *slots@[i].unwrap().1
                        == self.slots@[i].unwrap().1,
                match bounds {
                    None => forall|i: int| 0 <= i < n ==> (#[trigger] slots@[i]) is None,
                    Some((low, high)) => {
                        &&& low <= high < n
                        &&& slots@[low as int] is Some
                        &&& slots@[high as int] is Some
                        &&& forall|i: int|
                            0 <= i < n && (#[trigger] slots@[i]) is Some ==> low <= i <= high
                    },
                },
            decreases keys.len() - j,
        {
            let idx: usize = keys[j].index();
            if idx < n {
                match &self.slots[idx] {
                    Some(entry) => {
                        slots[idx] = Some((entry.0, &entry.1));
                        bounds = widened(bounds, idx);
                    },
                    None => {},
                }
            }
            j = j + 1;
        }
        let shown = IndexLookup { slots, bounds };
        proof {
            assert forall|i: int| #[trigger]
                shown.occupied(i) <==> self.occupied(i) && exists|jj: int|
                    0 <= jj < keys@.len() && (#[trigger] keys@[jj]).slot() == i by {
                if 0 <= i < n {
                    assert(shown.slots()[i] == slots@[i]);
                }
            }
            assert forall|i: int| #[trigger] shown.occupied(i) implies shown.key_at(i)
                == self.key_at(i) && shown.positions_at(i) == self.positions_at(i) by {
                assert(shown.slots()[i] == slots@[i]);
            }
            if self.structured() {
                assert forall|i: int| #[trigger] shown.occupied(i) implies shown.key_at(i).slot()
                    == i && shown.positions_at(i).len() > 0 by {
                    assert(self.occupied(i));
                }
                assert(shown.structured());
            }
        }
        crate::lookup::store::view::View::new(shown)
    }
}

/// The key of a slot, where it holds one.
pub open spec fn key_of<K, P>() -> spec_fn(Option<(K, P)>) -> Option<K> {
    |slot: Option<(K, P)>|
        match slot {
            Some(entry) => Some(entry.0),
            None => None,
        }
}

/// The keys of the occupied slots, from the first slot to the last.
pub open spec fn stored_keys<K, P>(slots: Seq<Option<(K, P)>>) -> Seq<K> {
    slots.filter_map(key_of())
}

/// Empty slots contribute no key.
pub proof fn lemma_keys_skip_empty<K, P>(slots: Seq<Option<(K, P)>>, from: int, to: int)
    requires
        0 <= from <= to <= slots.len(),
        forall|i: int| from <= i < to ==> slots[i] is None,
    ensures
        stored_keys(slots.take(to)) == stored_keys(slots.take(from)),
    decreases to - from,
{
    if from < to {
        lemma_keys_skip_empty(slots, from, to - 1);
        slots.lemma_filter_map_take_succ(key_of(), to - 1);
        assert(stored_keys(slots.take(to - 1)) + Seq::<K>::empty() =~= stored_keys(
            slots.take(to - 1),
        ));
    }
}

/// What an array index offers beyond the common read side: its keys in
/// ascending order of their slots, and the first and last of them.
pub struct IndexLookupExt<'a, K, P>(pub &'a IndexLookup<K, P>);

impl<K: IndexKey, P: KeyPositionAsSlice> IndexLookup<K, P> {
    /// The view of this index that offers the keys.
    pub fn ext(&self) -> (e: IndexLookupExt<'_, K, P>)
        ensures
            e.0 == self,
    {
        IndexLookupExt(self)
    }
}

impl<'a, K: IndexKey, P: KeyPositionAsSlice> IndexLookupExt<'a, K, P> {
    /// All stored keys, in ascending order of their slots. Only the slots
    /// between the first and the last occupied one are visited.
    pub fn keys(&self) -> (keys: Vec<K>)
        requires
            self.0.structured(),
        ensures
            keys@ == stored_keys(self.0.slots()),
    {
        let mut keys: Vec<K> = Vec::new();
        let ghost slots = self.0.slots();
        match self.0.bounds {
            None => {
                proof {
                    assert forall|i: int| 0 <= i < slots.len() implies slots[i] is None by {
                        assert(!self.0.occupied(i));
                    }
                    lemma_keys_skip_empty(slots, 0, slots.len() as int);
                    assert(slots.take(slots.len() as int) =~= slots);
                }
            },
            Some((low, high)) => {
                proof {
                    assert(self.0.occupied(high as int));
                    assert forall|i: int| 0 <= i < low implies slots[i] is None by {
                        assert(!self.0.occupied(i));
                    }
                    lemma_keys_skip_empty(slots, 0, low as int);
                }
                let mut i: usize = low;
                while i <= high
                    invariant
                        slots == self.0.slots@,
                        low <= i <= high + 1 <= slots.len(),
                        high < self.0.slots.len(),
                        keys@ == stored_keys(slots.take(i as int)),
                    decreases high + 1 - i,
                {
                    proof {
                        slots.lemma_filter_map_take_succ(key_of(), i as int);
                    }
                    match &self.0.slots[i] {
                        Some(entry) => {
                            keys.push(entry.0);
                        },
                        None => {
                            assert(keys@ + Seq::<K>::empty() =~= keys@);
                        },
                    }
                    i = i + 1;
                }
                proof {
                    assert forall|i: int| high + 1 <= i < slots.len() implies slots[i] is None by {
                        assert(!self.0.occupied(i));
                    }
                    lemma_keys_skip_empty(slots, high + 1, slots.len() as int);
                    assert(slots.take(slots.len() as int) =~= slots);
                }
            },
        }
        keys
    }

    /// The key of the first occupied slot; none where the index is empty.
    pub fn min_key(&self) -> (key: Option<K>)
        requires
            self.0.structured(),
        ensures
            key is None <==> forall|i: int| !#[trigger] self.0.occupied(i),
            key is Some ==> {
                &&& self.0.occupied(key.unwrap().slot() as int)
                &&& self.0.key_at(key.unwrap().slot() as int) == key.unwrap()
                &&& forall|i: int| #[trigger] self.0.occupied(i) ==> key.unwrap().slot() <= i
            },
    {
        match self.0.bounds {
            None => None,
            Some((low, _)) => {
                proof {
                    assert(self.0.occupied(low as int));
                }
                match &self.0.slots[low] {
                    Some(entry) => Some(entry.0),
                    None => None,
                }
            },
        }
    }

    /// The key of the last occupied slot; none where the index is empty.
    pub fn max_key(&self) -> (key: Option<K>)
        requires
            self.0.structured(),
        ensures
            key is None <==> forall|i: int| !#[trigger] self.0.occupied(i),
            key is Some ==> {
                &&& self.0.occupied(key.unwrap().slot() as int)
                &&& self.0.key_at(key.unwrap().slot() as int) == key.unwrap()
                &&& forall|i: int| #[trigger] self.0.occupied(i) ==> i <= key.unwrap().slot()
            },
    {
        match self.0.bounds {
            None => None,
            Some((_, high)) => {
                proof {
                    assert(self.0.occupied(high as int));
                }
                match &self.0.slots[high] {
                    Some(entry) => Some(entry.0),
                    None => None,
                }
            },
        }
    }
}

/// The positions of a slot; none where it is empty.
pub open spec fn positions_in<K, P: KeyPositionAsSlice>() -> spec_fn(Option<(K, P)>) -> Seq<usize> {
    |slot: Option<(K, P)>|
        match slot {
            Some(entry) => entry.1.positions(),
            None => Seq::empty(),
        }
}

/// The positions of all slots, from the first slot to the last.
pub open spec fn stored_positions<K, P: KeyPositionAsSlice>(slots: Seq<Option<(K, P)>>) -> Seq<usize> {
    slots.map_values(positions_in()).flatten()
}

impl<K: IndexKey, P: KeyPositionAsSlice> crate::lookup::store::listing::Positions for IndexLookup<
    K,
    P,
> {
    /// The positions come in ascending order of their keys' slots.
    open spec fn lists(&self, all: Seq<usize>) -> bool {
        all == stored_positions(self.slots())
    }

    fn positions(&self) -> (all: Vec<usize>) {
        let mut all: Vec<usize> = Vec::new();
        let ghost slots = self.slots@;
        let ghost each = slots.map_values(positions_in::<K, P>());
        let mut i: usize = 0;
        proof {
            assert(each.take(0) =~= Seq::<Seq<usize>>::empty());
        }
        while i < self.slots.len()
            invariant
                i <= self.slots.len(),
                slots == self.slots@,
                each == slots.map_values(positions_in::<K, P>()),
                all@ == each.take(i as int).flatten(),
            decreases self.slots.len() - i,
        {
            proof {
                assert(each.take(i + 1) =~= each.take(i as int).push(each[i as int]));
                each.take(i as int).lemma_flatten_push(each[i as int]);
            }
            match &self.slots[i] {
                Some(entry) => {
                    let held: &[usize] = entry.1.as_slice();
                    let ghost before = all@;
                    let mut j: usize = 0;
                    while j < held.len()
                        invariant
                            j <= held.len(),
                            all@ == before + held@.take(j as int),
                        decreases held.len() - j,
                    {
                        all.push(held[j]);
                        assert(held@.take(j + 1) =~= held@.take(j as int).push(held@[j as int]));
                        j = j + 1;
                    }
                    assert(held@.take(held@.len() as int) =~= held@);
                },
                None => {
                    assert(all@ + Seq::<usize>::empty() =~= all@);
                },
            }
            i = i + 1;
        }
        proof {
            assert(each.take(each.len() as int) =~= each);
        }
        all
    }
}

impl<K: IndexKey, P: KeyPositionAsSlice> Retriever<K> for IndexLookup<K, P> {
    open spec fn positions_of(&self, key: K) -> Seq<usize> {
        self.positions_at(key.slot() as int)
    }

    fn key_exist(&self, key: K) -> (found: bool) {
        self.pos_by_key(key).len() > 0
    }

    fn pos_by_key(&self, key: K) -> (s: &[usize]) {
        let idx: usize = key.index();
        if idx < self.slots.len() {
            match &self.slots[idx] {
                Some(entry) => entry.1.as_slice(),
                None => &[],
            }
        } else {
            &[]
        }
    }
}

/// Appends empty slots until there are `len` of them.
pub(crate) fn grow<K, P>(slots: &mut Vec<Option<(K, P)>>, len: usize)
    ensures
        final(slots)@.len() == if len > old(slots)@.len() { len as nat } else { old(slots)@.len() },
        forall|i: int| 0 <= i < old(slots)@.len() ==> final(slots)@[i] == old(slots)@[i],
        forall|i: int| old(slots)@.len() <= i < final(slots)@.len() ==> final(slots)@[i] is None,
{
    while slots.len() < len
        invariant
            old(slots)@.len() <= slots@.len(),
            slots@.len() <= len || slots@.len() == old(slots)@.len(),
            forall|i: int| 0 <= i < old(slots)@.len() ==> slots@[i] == old(slots)@[i],
            forall|i: int| old(slots)@.len() <= i < slots@.len() ==> slots@[i] is None,
        decreases len - slots.len(),
    {
        slots.push(None);
    }
}

/// The first occupied slot at or after `from`, where `high` is known to be
/// occupied.
fn first_occupied_from<K, P>(slots: &Vec<Option<(K, P)>>, from: usize, high: usize) -> (at: usize)
    requires
        from <= high < slots@.len(),
        slots@[high as int] is Some,
    ensures
        from <= at <= high,
        slots@[at as int] is Some,
        forall|i: int| from <= i < at ==> slots@[i] is None,
{
    let mut at: usize = from;
    while slots[at].is_none()
        invariant
            from <= at <= high < slots@.len(),
            slots@[high as int] is Some,
            forall|i: int| from <= i < at ==> slots@[i] is None,
        decreases high - at,
    {
        at = at + 1;
    }
    at
}

/// The last occupied slot at or before `upto`, where `low` is known to be
/// occupied.
fn last_occupied_upto<K, P>(slots: &Vec<Option<(K, P)>>, low: usize, upto: usize) -> (at: usize)
    requires
        low <= upto < slots@.len(),
        slots@[low as int] is Some,
    ensures
        low <= at <= upto,
        slots@[at as int] is Some,
        forall|i: int| at < i <= upto ==> slots@[i] is None,
{
    let mut at: usize = upto;
    while slots[at].is_none()
        invariant
            low <= at <= upto < slots@.len(),
            slots@[low as int] is Some,
            forall|i: int| at < i <= upto ==> slots@[i] is None,
        decreases at - low,
    {
        at = at - 1;
    }
    at
}

impl<K: IndexKey, P: KeyPosition> Store for IndexLookup<K, P> {
    type Key = K;

    open spec fn well_formed(&self) -> bool {
        &&& self.structured()
        &&& forall|i: int| #[trigger] self.occupied(i) ==> P::holds(self.positions_at(i))
    }

    open spec fn same_key(a: &K, b: &K) -> bool {
        a.slot() == b.slot()
    }

    open spec fn held(&self, key: &K) -> Seq<usize> {
        self.positions_at(key.slot() as int)
    }

    open spec fn verdict(&self, key: &K, pos: usize) -> Result<(), PositionError> {
        if key.slot() >= self.slots().len() && key.slot() + PRE_ALLOC_SIZE > usize::MAX {
            Err(PositionError::OutOfRange)
        } else if self.held(key).len() == 0 || P::accepts(self.held(key), pos) {
            Ok(())
        } else {
            Err(PositionError::Occupied)
        }
    }

    /// Beyond what the trait says, the slots change as `grown_by` has it; the
    /// bounds widen and never narrow.
    fn insert(&mut self, key: K, pos: usize) -> (r: Result<(), PositionError>)
        ensures
            Self::grown_by(old(self), final(self), key, pos, r is Ok),
    {
        let idx: usize = key.index();
        if self.slots.len() <= idx {
            if idx > usize::MAX - PRE_ALLOC_SIZE {
                return Err(PositionError::OutOfRange);
            }
            grow(&mut self.slots, idx + PRE_ALLOC_SIZE);
        }
        proof {
            assert forall|i: int| #[trigger] self.occupied(i) <==> old(self).occupied(i) by {}
            assert(self.occupied(idx as int) ==> P::holds(self.positions_at(idx as int)));
        }
        let ghost grown = *self;
        let r: Result<(), PositionError> = match &mut self.slots[idx] {
            Some(entry) => entry.1.add_pos(pos),
            None => {
                self.slots[idx] = Some((key, P::from_pos(pos)));
                Ok(())
            },
        };
        if r.is_ok() {
            self.bounds = widened(self.bounds, idx);
        }
        proof {
            assert forall|i: int| #[trigger] self.occupied(i) implies self.key_at(i).slot() == i
                && self.positions_at(i).len() > 0 && P::holds(self.positions_at(i)) by {
                if i != idx {
                    assert(grown.occupied(i));
                    assert(old(self).occupied(i));
                } else if grown.occupied(i) {
                    assert(old(self).occupied(i));
                }
            }
            assert(old(self).occupied(idx as int) <==> old(self).held(&key).len() > 0);
            assert forall|i: int| #[trigger]
                self.positions_at(i) == if r is Ok && i == idx {
                    with_pos(old(self).positions_at(i), pos)
                } else {
                    old(self).positions_at(i)
                } by {
                if i != idx {
                    assert(self.occupied(i) <==> grown.occupied(i));
                    assert(grown.occupied(i) <==> old(self).occupied(i));
                } else {
                    assert(self.held(&key) == self.positions_at(i));
                    assert(old(self).held(&key) == old(self).positions_at(i));
                }
            }
            assert forall|i: int| #[trigger] self.occupied(i) <==> (old(self).occupied(i) || (r is Ok
                && i == idx)) by {
                if i != idx {
                    assert(self.occupied(i) <==> grown.occupied(i));
                    assert(grown.occupied(i) <==> old(self).occupied(i));
                }
            }
            match old(self).bounds() {
                None => {
                    assert forall|i: int| #[trigger] self.occupied(i) implies i == idx by {
                        assert(!old(self).occupied(i));
                    }
                },
                Some((low, high)) => {
                    assert(old(self).occupied(low as int));
                    assert(old(self).occupied(high as int));
                    assert(self.occupied(low as int));
                    assert(self.occupied(high as int));
                    assert forall|i: int| #[trigger] self.occupied(i) implies low <= i <= high
                        || i == idx by {
                        if i != idx {
                            assert(old(self).occupied(i));
                        }
                    }
                },
            }
            assert(self.structured());
        }
        r
    }

    /// Beyond what the trait says, the slots change as `shrunk_by` has it;
    /// the bounds narrow to the occupied slots that are left.
    fn delete(&mut self, key: K, pos: &usize)
        ensures
            Self::shrunk_by(old(self), final(self), key, *pos),
    {
        let idx: usize = key.index();
        if idx >= self.slots.len() {
            proof {
                assert(!old(self).occupied(idx as int));
                assert(without_pos(Seq::<usize>::empty(), *pos) =~= Seq::<usize>::empty());
            }
            return ;
        }
        proof {
            assert(self.occupied(idx as int) ==> P::holds(self.positions_at(idx as int)));
            assert(without_pos(Seq::<usize>::empty(), *pos) =~= Seq::<usize>::empty());
        }
        let emptied: bool = match &mut self.slots[idx] {
            Some(entry) => entry.1.remove_pos(pos),
            None => false,
        };
        let ghost reduced = *self;
        if emptied {
            self.slots[idx] = None;
            match self.bounds {
                Some((low, high)) => {
                    proof {
                        assert(old(self).occupied(idx as int));
                        assert(old(self).occupied(low as int));
                        assert(old(self).occupied(high as int));
                    }
                    if low == high {
                        self.bounds = None;
                    } else if idx == low {
                        let at: usize = first_occupied_from(&self.slots, idx + 1, high);
                        self.bounds = Some((at, high));
                    } else if idx == high {
                        let at: usize = last_occupied_upto(&self.slots, low, idx - 1);
                        self.bounds = Some((low, at));
                    }
                },
                None => {
                    proof {
                        assert(old(self).occupied(idx as int));
                    }
                },
            }
        }
        proof {
            assert forall|i: int| #[trigger] self.occupied(i) <==> old(self).occupied(i) && !(i
                == idx && emptied) by {}
            assert forall|i: int| #[trigger]
                self.positions_at(i) == if i == idx {
                    without_pos(old(self).positions_at(i), *pos)
                } else {
                    old(self).positions_at(i)
                } by {
                if i == idx {
                    assert(self.held(&key) == self.positions_at(i));
                    assert(old(self).held(&key) == old(self).positions_at(i));
                }
            }
            assert forall|i: int| #[trigger] self.occupied(i) implies self.key_at(i).slot() == i
                && self.positions_at(i).len() > 0 && P::holds(self.positions_at(i)) by {
                assert(old(self).occupied(i));
            }
            match old(self).bounds() {
                None => {
                    assert forall|i: int| !#[trigger] self.occupied(i) by {
                        assert(!old(self).occupied(i));
                    }
                },
                Some((low, high)) => {
                    assert(old(self).occupied(low as int));
                    assert(old(self).occupied(high as int));
                    assert forall|i: int| #[trigger] self.occupied(i) implies low <= i <= high by {
                        assert(old(self).occupied(i));
                    }
                },
            }
            assert(self.structured());
        }
    }

    fn with_capacity(capacity: usize) -> (store: Self) {
        IndexLookup { slots: Vec::with_capacity(presized(capacity)), bounds: None }
    }
}

/// Round trip: a position that was stored under a key is among the positions
/// read for that key, and once it has been taken away again it is not.
pub proof fn lemma_index_round_trip<K: IndexKey, P: KeyPosition>(
    before: IndexLookup<K, P>,
    stored: IndexLookup<K, P>,
    cleared: IndexLookup<K, P>,
    key: K,
    pos: usize,
)
    requires
        before.well_formed(),
        stored_under(&before, &stored, &key, pos),
        taken_from(&stored, &cleared, &key, pos),
    ensures
        stored.positions_of(key).contains(pos),
        !cleared.positions_of(key).contains(pos),
{
    assert(stored.held(&key) == with_pos(before.held(&key), pos));
    assert(cleared.held(&key) == without_pos(stored.held(&key), pos));
    crate::lookup::store::position::lemma_with_pos_has(before.held(&key), pos);
    crate::lookup::store::position::lemma_without_pos_lacks(stored.held(&key), pos);
}

/// Idempotent delete: taking away a position that is not stored under the
/// key leaves every slot as it was, and so all that can be read: the
/// positions of every key, the keys, and the first and last of them.
pub proof fn lemma_index_delete_absent<K: IndexKey, P: KeyPosition>(
    before: IndexLookup<K, P>,
    after: IndexLookup<K, P>,
    key: K,
    pos: usize,
)
    requires
        before.well_formed(),
        after.well_formed(),
        taken_from(&before, &after, &key, pos),
        IndexLookup::shrunk_by(&before, &after, key, pos),
        !before.positions_of(key).contains(pos),
    ensures
        after.slots().len() == before.slots().len(),
        forall|i: int| after.occupied(i) == before.occupied(i),
        forall|i: int| #[trigger] before.occupied(i) ==> after.key_at(i) == before.key_at(i),
        forall|i: int| after.positions_at(i) == before.positions_at(i),
        after.bounds() == before.bounds(),
{
    crate::lookup::store::position::lemma_without_pos_absent(before.held(&key), pos);
    assert forall|i: int| after.occupied(i) == before.occupied(i) by {
        if i == key.slot() && before.occupied(i) {
            assert(before.positions_at(i).len() > 0);
        }
    }
    assert forall|i: int| after.positions_at(i) == before.positions_at(i) by {
        if before.occupied(i) {
            let k = before.key_at(i);
            assert(k.slot() == i);
            assert(after.held(&k) == after.positions_at(i));
            assert(before.held(&k) == before.positions_at(i));
        } else {
            assert(!after.occupied(i));
        }
    }
    lemma_bounds_follow_slots(before, after);
}

/// The bounds of a structured index are decided by which slots are occupied.
pub proof fn lemma_bounds_follow_slots<K: IndexKey, P: KeyPositionAsSlice>(
    a: IndexLookup<K, P>,
    b: IndexLookup<K, P>,
)
    requires
        a.structured(),
        b.structured(),
        forall|i: int| a.occupied(i) == b.occupied(i),
    ensures
        a.bounds() == b.bounds(),
{
    match (a.bounds(), b.bounds()) {
        (Some((low, high)), Some((other_low, other_high))) => {
            assert(a.occupied(low as int) && a.occupied(high as int));
            assert(b.occupied(other_low as int) && b.occupied(other_high as int));
            assert(b.occupied(low as int) && b.occupied(high as int));
            assert(a.occupied(other_low as int) && a.occupied(other_high as int));
        },
        (Some((low, high)), None) => {
            assert(a.occupied(low as int));
            assert(b.occupied(low as int));
        },
        (None, Some((low, high))) => {
            assert(b.occupied(low as int));
            assert(a.occupied(low as int));
        },
        (None, None) => {},
    }
}

/// Multi ordering: whatever the order in which positions were stored, the
/// positions read for a key ascend strictly, so none comes twice; and
/// storing one more leaves exactly the old ones and the new one.
pub proof fn lemma_index_multi_ordering<K: IndexKey>(
    before: IndexLookup<K, Vec<usize>>,
    after: IndexLookup<K, Vec<usize>>,
    key: K,
    pos: usize,
)
    requires
        before.well_formed(),
        stored_under(&before, &after, &key, pos),
    ensures
        ascending(before.positions_of(key)),
        ascending(after.positions_of(key)),
        forall|p: usize|
            after.positions_of(key).contains(p) <==> before.positions_of(key).contains(p) || p
                == pos,
{
    assert(before.occupied(key.slot() as int) ==> ascending(before.positions_at(key.slot() as int)));
    assert(after.held(&key) == with_pos(before.held(&key), pos));
    crate::lookup::store::position::lemma_with_pos_holds(before.held(&key), pos);
}

/// Unique exclusivity: a key that holds a position takes no second one.
pub proof fn lemma_index_unique_exclusive<K: IndexKey>(
    index: IndexLookup<K, Option<usize>>,
    key: K,
    pos: usize,
)
    requires
        index.well_formed(),
        index.positions_of(key).len() > 0,
    ensures
        index.verdict(&key, pos) == Err::<(), PositionError>(PositionError::Occupied),
{
}

/// View isolation: what a view gives for a key is decided by the index as it
/// was when the view was made and by the keys it was made for. Whatever the
/// index becomes `later` has no part in it.
pub proof fn lemma_index_view_isolated<'a, K: IndexKey, P: KeyPositionAsSlice>(
    source: IndexLookup<K, P>,
    keys: Seq<K>,
    view: crate::lookup::store::view::View<IndexLookup<K, &'a P>>,
    later: IndexLookup<K, P>,
    key: K,
)
    requires
        source.shows(&view, keys),
    ensures
        view.positions_of(key) == if exists|j: int|
            0 <= j < keys.len() && (#[trigger] keys[j]).slot() == key.slot() {
            source.positions_of(key)
        } else {
            Seq::empty()
        },
{
    let shown = view.retriever();
    let i = key.slot() as int;
    if shown.occupied(i) {
        assert(source.occupied(i));
    }
}

} // verus!

//! An index that is kept in a hash table, for keys that are names.
use vstd::prelude::*;
use core::marker::PhantomData;
use crate::lookup::store::position::KeyPosition;
use crate::lookup::store::position::PositionError;
use crate::lookup::store::position::ascending;
use crate::lookup::store::position::with_pos;
use crate::lookup::store::position::without_pos;
use crate::lookup::store::Retriever;
use crate::lookup::store::presized;
use crate::lookup::store::stored_under;
use crate::lookup::store::taken_from;
use crate::lookup::store::Store;
use crate::lookup::store::PRESIZE_LIMIT;
use crate::lookup::store::ViewCreator;

verus! {

/// The hash table behind the index: from a name to its positions.
#[verifier::external_body]
pub struct PositionTable {
    map: hashbrown::HashMap<String, Vec<usize>>,
}

/// What a table holds: for each name in it, the positions stored with it.
pub uninterp spec fn table_entries(table: PositionTable) -> Map<Seq<char>, Seq<usize>>;

/// A table without a name in it.
pub open spec fn no_entries() -> Map<Seq<char>, Seq<usize>> {
    Map::empty()
}

/// `hashbrown::HashMap::with_capacity`: an empty table. The capacity is kept
/// small enough for the table's size computation not to overflow.
#[verifier::external_body]
fn table_with_capacity(capacity: usize) -> (table: PositionTable)
    requires
        capacity <= PRESIZE_LIMIT,
    ensures
        table_entries(table) == no_entries(),
{
    PositionTable { map: hashbrown::HashMap::with_capacity(capacity) }
}

/// `hashbrown::HashMap::len`: the number of names in the table.
#[verifier::external_body]
fn table_len(table: &PositionTable) -> (n: usize)
    ensures
        n == table_entries(*table).dom().len(),
{
    table.map.len()
}

/// `hashbrown::HashMap::get`: the positions stored with `key`, if it is in
/// the table.
#[verifier::external_body]
fn table_get<'a>(table: &'a PositionTable, key: &str) -> (found: Option<&'a Vec<usize>>)
    ensures
        found is Some <==> table_entries(*table).contains_key(key@),
        found is Some ==> found.unwrap()@ == table_entries(*table)[key@],
{
    table.map.get(key)
}

/// `hashbrown::HashMap::insert`: `key` is in the table with `held`, and what
/// was stored with it before is handed back.
#[verifier::external_body]
fn table_insert(table: &mut PositionTable, key: String, held: Vec<usize>) -> (was: Option<
    Vec<usize>,
>)
    ensures
        table_entries(*final(table)) == table_entries(*old(table)).insert(key@, held@),
        was is Some <==> table_entries(*old(table)).contains_key(key@),
        was is Some ==> was.unwrap()@ == table_entries(*old(table))[key@],
{
    table.map.insert(key, held)
}

/// `hashbrown::HashMap::remove`: `key` is no longer in the table, and what
/// was stored with it is handed back.
#[verifier::external_body]
fn table_remove(table: &mut PositionTable, key: &str) -> (was: Option<Vec<usize>>)
    ensures
        table_entries(*final(table)) == table_entries(*old(table)).remove(key@),
        was is Some <==> table_entries(*old(table)).contains_key(key@),
        was is Some ==> was.unwrap()@ == table_entries(*old(table))[key@],
{
    table.map.remove(key)
}

/// `hashbrown::HashMap::keys`: every name in the table, each once, in no
/// order that can be relied on.
#[verifier::external_body]
fn table_keys(table: &PositionTable) -> (keys: Vec<String>)
    ensures
        names_of(keys@).to_set() == table_entries(*table).dom(),
        names_of(keys@).no_duplicates(),
{
    table.map.keys().cloned().collect()
}

/// The names that `keys` spell.
pub open spec fn names_of(keys: Seq<String>) -> Seq<Seq<char>> {
    keys.map_values(|key: String| key@)
}

/// The positions that `entries` has for `name`; none where it has none.
pub open spec fn entry_of(entries: Map<Seq<char>, Seq<usize>>, name: Seq<char>) -> Seq<usize> {
    if entries.contains_key(name) {
        entries[name]
    } else {
        Seq::empty()
    }
}

/// The hashed index: from a name to its positions, in the discipline `P`.
pub struct HashStore<P> {
    table: PositionTable,
    discipline: PhantomData<P>,
}

/// A hashed index with at most one position per name.
pub type UniquePosHash = HashStore<Option<usize>>;

/// A hashed index with any number of positions per name.
pub type MultiPosHash = HashStore<Vec<usize>>;

impl<P> HashStore<P> {
    /// What the index holds: for each name in it, its positions.
    pub closed spec fn entries(&self) -> Map<Seq<char>, Seq<usize>> {
        table_entries(self.table)
    }
}

impl<P> HashStore<P> {
    /// The entries once `pos` has been stored under `name`, where it was
    /// `taken`; the entries as they were, where it was refused.
    pub open spec fn entries_with(
        entries: Map<Seq<char>, Seq<usize>>,
        name: Seq<char>,
        pos: usize,
        taken: bool,
    ) -> Map<Seq<char>, Seq<usize>> {
        if taken {
            entries.insert(name, with_pos(entry_of(entries, name), pos))
        } else {
            entries
        }
    }

    /// The entries once `pos` has been taken away from `name`: a name whose
    /// last position left is no longer among them.
    pub open spec fn entries_without(
        entries: Map<Seq<char>, Seq<usize>>,
        name: Seq<char>,
        pos: usize,
    ) -> Map<Seq<char>, Seq<usize>> {
        if without_pos(entry_of(entries, name), pos).len() == 0 {
            entries.remove(name)
        } else {
            entries.insert(name, without_pos(entry_of(entries, name), pos))
        }
    }
}

impl<'q, P> Retriever<&'q str> for HashStore<P> {
    open spec fn positions_of(&self, key: &'q str) -> Seq<usize> {
        entry_of(self.entries(), key@)
    }

    fn key_exist(&self, key: &'q str) -> (found: bool) {
        self.pos_by_key(key).len() > 0
    }

    fn pos_by_key(&self, key: &'q str) -> (s: &[usize]) {
        match table_get(&self.table, key) {
            Some(held) => held.as_slice(),
            None => &[],
        }
    }
}

impl<P: KeyPosition> Store for HashStore<P> {
    type Key = String;

    open spec fn well_formed(&self) -> bool {
        forall|name: Seq<char>| #[trigger]
            self.entries().contains_key(name) ==> self.entries()[name].len() > 0 && P::holds(
                self.entries()[name],
            )
    }

    open spec fn same_key(a: &String, b: &String) -> bool {
        a@ == b@
    }

    open spec fn held(&self, key: &String) -> Seq<usize> {
        entry_of(self.entries(), key@)
    }

    open spec fn verdict(&self, key: &String, pos: usize) -> Result<(), PositionError> {
        if self.held(key).len() == 0 || P::accepts(self.held(key), pos) {
            Ok(())
        } else {
            Err(PositionError::Occupied)
        }
    }

    /// Beyond what the trait says, the entries are as `entries_with` has
    /// them: no name but `key` comes into the index.
    fn insert(&mut self, key: String, pos: usize) -> (r: Result<(), PositionError>)
        ensures
            final(self).entries() == Self::entries_with(old(self).entries(), key@, pos, r is Ok),
    {
        let ghost before = self.entries();
        match table_remove(&mut self.table, key.as_str()) {
            Some(held) => {
                let mut set: P = P::from_positions(held);
                let r = set.add_pos(pos);
                table_insert(&mut self.table, key, set.into_positions());
                proof {
                    if r is Err {
                        assert(self.entries() =~= before);
                    }
                }
                r
            },
            None => {
                let set: P = P::from_pos(pos);
                table_insert(&mut self.table, key, set.into_positions());
                proof {
                    crate::lookup::store::position::lemma_rank_is_split(
                        Seq::<usize>::empty(),
                        pos,
                        0,
                    );
                    assert(Seq::<usize>::empty().insert(0, pos) =~= seq![pos]);
                    assert(self.entries() =~= before.insert(key@, with_pos(old(self).held(&key), pos)));
                }
                Ok(())
            },
        }
    }

    /// Beyond what the trait says, the entries are as `entries_without` has
    /// them: a name whose last position left is no longer in the index, and
    /// no other name comes or goes.
    fn delete(&mut self, key: String, pos: &usize)
        ensures
            final(self).entries() == Self::entries_without(old(self).entries(), key@, *pos),
    {
        let ghost before = self.entries();
        match table_remove(&mut self.table, key.as_str()) {
            Some(held) => {
                let mut set: P = P::from_positions(held);
                if !set.remove_pos(pos) {
                    table_insert(&mut self.table, key, set.into_positions());
                    assert(self.entries() =~= before.insert(key@, without_pos(old(self).held(&key), *pos)));
                }
            },
            None => {
                proof {
                    crate::lookup::store::position::lemma_without_pos_absent(
                        Seq::<usize>::empty(),
                        *pos,
                    );
                    assert(self.entries() =~= before);
                }
            },
        }
    }

    fn with_capacity(capacity: usize) -> (store: Self) {
        HashStore { table: table_with_capacity(presized(capacity)), discipline: PhantomData }
    }
}

/// The positions of each of `names` in turn, as `entries` has them.
pub open spec fn entries_of(entries: Map<Seq<char>, Seq<usize>>, names: Seq<Seq<char>>) -> Seq<usize> {
    names.map_values(|name: Seq<char>| entry_of(entries, name)).flatten()
}

impl<P> crate::lookup::store::listing::Positions for HashStore<P> {
    /// The names come each once, in no order that can be relied on; the
    /// positions of one name come together and in their order.
    open spec fn lists(&self, all: Seq<usize>) -> bool {
        exists|names: Seq<Seq<char>>|
            {
                &&& names.no_duplicates()
                &&& names.to_set() == self.entries().dom()
                &&& all == #[trigger] entries_of(self.entries(), names)
            }
    }

    fn positions(&self) -> (all: Vec<usize>) {
        let keys: Vec<String> = table_keys(&self.table);
        let ghost names = names_of(keys@);
        let ghost each = names.map_values(|name: Seq<char>| entry_of(self.entries(), name));
        let mut all: Vec<usize> = Vec::new();
        let mut i: usize = 0;
        proof {
            assert(each.take(0) =~= Seq::<Seq<usize>>::empty());
        }
        while i < keys.len()
            invariant
                i <= keys.len(),
                names == names_of(keys@),
                each == names.map_values(|name: Seq<char>| entry_of(self.entries(), name)),
                all@ == each.take(i as int).flatten(),
            decreases keys.len() - i,
        {
            proof {
                assert(each.take(i + 1) =~= each.take(i as int).push(each[i as int]));
                each.take(i as int).lemma_flatten_push(each[i as int]);
            }
            match table_get(&self.table, keys[i].as_str()) {
                Some(held) => {
                    let ghost before = all@;
                    let mut j: usize = 0;
                    while j < held.len()
                        invariant
                            j <= held.len(),
                            all@ == before + held@.take(j as int),
                        decreases held.len() - j,
                    {
                        all.push(held[j]);
                        assert(held@.take(j + 1) =~= held@.take(j as int).push(held@[j as int]));
                        j = j + 1;
                    }
                    assert(held@.take(held@.len() as int) =~= held@);
                },
                None => {
                    assert(all@ + Seq::<usize>::empty() =~= all@);
                },
            }
            i = i + 1;
        }
        proof {
            assert(each.take(each.len() as int) =~= each);
            assert(all@ == entries_of(self.entries(), names));
        }
        all
    }
}

/// Makes empty hashed indexes.
pub struct HashLookup;

impl HashLookup {
    /// An empty index with at most one position per name.
    pub fn with_unique_key() -> (store: HashStore<Option<usize>>)
        ensures
            store.well_formed(),
            store.entries() == no_entries(),
    {
        HashStore { table: table_with_capacity(0), discipline: PhantomData }
    }

    /// An empty index with any number of positions per name.
    pub fn with_multi_keys() -> (store: HashStore<Vec<usize>>)
        ensures
            store.well_formed(),
            store.entries() == no_entries(),
    {
        HashStore { table: table_with_capacity(0), discipline: PhantomData }
    }
}

/// What a hashed index offers beyond the common read side: its names.
pub struct HashStoreExt<'a, P>(pub &'a HashStore<P>);

impl<P> HashStore<P> {
    /// The view of this index that offers the names.
    pub fn ext(&self) -> (e: HashStoreExt<'_, P>)
        ensures
            e.0 == self,
    {
        HashStoreExt(self)
    }
}

impl<'a, P> HashStoreExt<'a, P> {
    /// Every name in the index, each once, in no order that can be relied
    /// on.
    pub fn keys(&self) -> (keys: Vec<String>)
        ensures
            names_of(keys@).to_set() == self.0.entries().dom(),
            names_of(keys@).no_duplicates(),
    {
        table_keys(&self.0.table)
    }
}

impl<'a, P> ViewCreator<'a> for HashStore<P> {
    type Key = String;

    type Retriever = HashStore<P>;

    /// The view has the entries of the index whose names are among `keys`,
    /// and no others.
    open spec fn shows(
        &self,
        view: &crate::lookup::store::view::View<HashStore<P>>,
        keys: Seq<String>,
    ) -> bool {
        view.retriever().entries() == self.entries().restrict(names_of(keys).to_set())
    }

    fn create_view(&'a self, keys: Vec<String>) -> (view: crate::lookup::store::view::View<
        HashStore<P>,
    >) {
        let mut table: PositionTable = table_with_capacity(presized(table_len(&self.table)));
        let mut j: usize = 0;
        while j < keys.len()
            invariant
                j <= keys.len(),
                table_entries(table) == self.entries().restrict(
                    names_of(keys@.take(j as int)).to_set(),
                ),
            decreases keys.len() - j,
        {
            let ghost shown = table_entries(table);
            match table_get(&self.table, keys[j].as_str()) {
                Some(held) => {
                    table_insert(&mut table, keys[j].clone(), held.clone());
                },
                None => {},
            }
            proof {
                let seen = names_of(keys@.take(j as int));
                let more = names_of(keys@.take(j + 1));
                assert(more =~= seen.push(keys@[j as int]@));
                assert(more.to_set() =~= seen.to_set().insert(keys@[j as int]@)) by {
                    assert forall|name: Seq<char>| more.to_set().contains(name) implies seen.to_set().insert(
                        keys@[j as int]@,
                    ).contains(name) by {
                        let i = choose|i: int| 0 <= i < more.len() && more[i] == name;
                        if i < j {
                            assert(seen[i] == name);
                        }
                    }
                    assert forall|name: Seq<char>|
                        seen.to_set().insert(keys@[j as int]@).contains(name) implies more.to_set().contains(
                        name,
                    ) by {
                        if seen.to_set().contains(name) {
                            let i = choose|i: int| 0 <= i < seen.len() && seen[i] == name;
                            assert(more[i] == name);
                        } else {
                            assert(more[j as int] == name);
                        }
                    }
                }
                assert(table_entries(table) =~= self.entries().restrict(more.to_set()));
            }
            j = j + 1;
        }
        proof {
            assert(keys@.take(keys@.len() as int) =~= keys@);
        }
        crate::lookup::store::view::View::new(HashStore { table, discipline: PhantomData })
    }
}

/// Round trip: a position that was stored under a name is among the
/// positions read for that name, and once it has been taken away again it is
/// not.
pub proof fn lemma_hash_round_trip<P: KeyPosition>(
    before: HashStore<P>,
    stored: HashStore<P>,
    cleared: HashStore<P>,
    key: String,
    pos: usize,
)
    requires
        before.well_formed(),
        stored_under(&before, &stored, &key, pos),
        taken_from(&stored, &cleared, &key, pos),
    ensures
        forall|q: &str| q@ == key@ ==> (#[trigger] stored.positions_of(q)).contains(pos),
        forall|q: &str| q@ == key@ ==> !(#[trigger] cleared.positions_of(q)).contains(pos),
{
    assert(stored.held(&key) == with_pos(before.held(&key), pos));
    assert(cleared.held(&key) == without_pos(stored.held(&key), pos));
    crate::lookup::store::position::lemma_with_pos_has(before.held(&key), pos);
    crate::lookup::store::position::lemma_without_pos_lacks(stored.held(&key), pos);
}

/// Idempotent delete: taking away a position that is not stored under the
/// name leaves the entries as they were.
pub proof fn lemma_hash_delete_absent<P: KeyPosition>(
    before: HashStore<P>,
    after: HashStore<P>,
    key: String,
    pos: usize,
)
    requires
        before.well_formed(),
        after.entries() == HashStore::<P>::entries_without(before.entries(), key@, pos),
        !before.held(&key).contains(pos),
    ensures
        after.entries() == before.entries(),
{
    crate::lookup::store::position::lemma_without_pos_absent(before.held(&key), pos);
    assert(after.entries() =~= before.entries());
}

/// Multi ordering: whatever the order in which positions were stored, the
/// positions read for a name ascend strictly, so none comes twice; and
/// storing one more leaves exactly the old ones and the new one.
pub proof fn lemma_hash_multi_ordering(
    before: HashStore<Vec<usize>>,
    after: HashStore<Vec<usize>>,
    key: String,
    pos: usize,
)
    requires
        before.well_formed(),
        stored_under(&before, &after, &key, pos),
    ensures
        forall|q: &str|
            q@ == key@ ==> {
                &&& ascending(before.positions_of(q))
                &&& ascending(#[trigger] after.positions_of(q))
                &&& forall|p: usize|
                    after.positions_of(q).contains(p) <==> before.positions_of(q).contains(p) || p
                        == pos
            },
{
    assert(before.entries().contains_key(key@) ==> ascending(before.entries()[key@]));
    assert(after.held(&key) == with_pos(before.held(&key), pos));
    crate::lookup::store::position::lemma_with_pos_holds(before.held(&key), pos);
}

/// Unique exclusivity: a name that holds a position takes no second one.
pub proof fn lemma_hash_unique_exclusive(index: HashStore<Option<usize>>, key: String, pos: usize)
    requires
        index.well_formed(),
        index.held(&key).len() > 0,
    ensures
        index.verdict(&key, pos) == Err::<(), PositionError>(PositionError::Occupied),
{
    assert(index.entries().contains_key(key@));
}

/// View isolation: what a view gives for a name is decided by the index as
/// it was when the view was made and by the names it was made for. Whatever
/// the index becomes `later` has no part in it.
pub proof fn lemma_hash_view_isolated<P>(
    source: HashStore<P>,
    keys: Seq<String>,
    view: crate::lookup::store::view::View<HashStore<P>>,
    later: HashStore<P>,
    q: &str,
)
    requires
        source.shows(&view, keys),
    ensures
        view.positions_of(q) == if names_of(keys).contains(q@) {
            source.positions_of(q)
        } else {
            Seq::empty()
        },
{
}

} // verus!

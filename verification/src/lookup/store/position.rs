//! The per-key container of positions, in its two disciplines.
//!
//! - unique: a key holds no position or exactly one
//! - multi: a key holds a strictly ascending list of positions
use vstd::prelude::*;

verus! {

/// The test "is another position than `pos`".
pub open spec fn other_than(pos: usize) -> spec_fn(usize) -> bool {
    |p: usize| p != pos
}

/// The test "lies below `pos`".
pub open spec fn below(pos: usize) -> spec_fn(usize) -> bool {
    |p: usize| p < pos
}

/// The positions of `s` without `pos`, in their old order.
pub open spec fn without_pos(s: Seq<usize>, pos: usize) -> Seq<usize> {
    s.filter(other_than(pos))
}

/// The number of positions of `s` that lie below `pos`.
pub open spec fn rank(s: Seq<usize>, pos: usize) -> int {
    s.filter(below(pos)).len() as int
}

/// `s` with `pos` put at its place in ascending order; `s` itself where it
/// already holds `pos`.
pub open spec fn with_pos(s: Seq<usize>, pos: usize) -> Seq<usize> {
    if s.contains(pos) {
        s
    } else {
        s.insert(rank(s, pos), pos)
    }
}

/// Strictly ascending: sorted, and no position twice.
pub open spec fn ascending(s: Seq<usize>) -> bool {
    forall|i: int, j: int| 0 <= i < j < s.len() ==> s[i] < s[j]
}

/// Why a position was not added.
#[derive(Clone, Copy, Debug, PartialEq, Eq, Structural)]
pub enum PositionError {
    /// The key is unique and already holds a position.
    Occupied,
    /// The key lies beyond what the index can address.
    OutOfRange,
}

/// The read side of a container of positions.
pub trait KeyPositionAsSlice {
    /// The positions held, in the order in which they are handed out.
    spec fn positions(&self) -> Seq<usize>;

    /// All positions held; the empty slice where there is none.
    fn as_slice(&self) -> (s: &[usize])
        ensures
            s@ == self.positions(),
    ;
}

/// The container of the positions of one key.
///
/// A discipline says which sequences of positions it holds (`holds`) and when
/// it takes one more (`accepts`); the rest is the same for every discipline.
pub trait KeyPosition: KeyPositionAsSlice + Sized {
    /// The sequences of positions that a value of this discipline may hold.
    spec fn holds(held: Seq<usize>) -> bool;

    /// Whether `pos` may be added to a value that holds `held`.
    spec fn accepts(held: Seq<usize>, pos: usize) -> bool;

    /// A container that holds exactly `pos`.
    fn from_pos(pos: usize) -> (r: Self)
        ensures
            r.positions() == seq![pos],
            Self::holds(r.positions()),
    ;

    /// The container that holds the positions of `held`.
    fn from_positions(held: Vec<usize>) -> (r: Self)
        requires
            Self::holds(held@),
        ensures
            r.positions() == held@,
    ;

    /// The positions held, as a list of their own.
    fn into_positions(self) -> (held: Vec<usize>)
        ensures
            held@ == self.positions(),
    ;

    /// Adds `pos` where the discipline accepts it, and changes nothing where
    /// it does not.
    fn add_pos(&mut self, pos: usize) -> (r: Result<(), PositionError>)
        requires
            Self::holds(old(self).positions()),
        ensures
            Self::holds(final(self).positions()),
            r == if Self::accepts(old(self).positions(), pos) {
                Ok::<(), PositionError>(())
            } else {
                Err::<(), PositionError>(PositionError::Occupied)
            },
            final(self).positions() == if r is Ok {
                with_pos(old(self).positions(), pos)
            } else {
                old(self).positions()
            },
            r is Err ==> *final(self) == *old(self),
    ;

    /// Takes `pos` out, and says whether no position is left.
    fn remove_pos(&mut self, pos: &usize) -> (emptied: bool)
        requires
            Self::holds(old(self).positions()),
        ensures
            Self::holds(final(self).positions()),
            final(self).positions() == without_pos(old(self).positions(), *pos),
            emptied <==> final(self).positions().len() == 0,
    ;
}

impl<P: KeyPositionAsSlice> KeyPositionAsSlice for &P {
    open spec fn positions(&self) -> Seq<usize> {
        (**self).positions()
    }

    fn as_slice(&self) -> (s: &[usize]) {
        (**self).as_slice()
    }
}

/// At most one position for a key.
pub type UniqueKeyPosition = Option<usize>;

/// Any number of positions for a key, strictly ascending.
pub type MultiKeyPosition = Vec<usize>;

/// `UniqueKeyPosition` under its short name.
pub type UniqueKeyPositon = Option<usize>;

/// `MultiKeyPosition` under its short name.
pub type MultiKeyPositon = Vec<usize>;

impl KeyPositionAsSlice for Option<usize> {
    open spec fn positions(&self) -> Seq<usize> {
        match self {
            Some(p) => seq![*p],
            None => Seq::empty(),
        }
    }

    fn as_slice(&self) -> (s: &[usize]) {
        self.as_slice()
    }
}

impl KeyPosition for Option<usize> {
    open spec fn holds(held: Seq<usize>) -> bool {
        held.len() <= 1
    }

    open spec fn accepts(held: Seq<usize>, pos: usize) -> bool {
        held.len() == 0
    }

    fn from_pos(pos: usize) -> (r: Self)
        ensures
            r == Some(pos),
    {
        Some(pos)
    }

    fn from_positions(held: Vec<usize>) -> (r: Self) {
        if held.len() == 0 {
            assert(held@ =~= Seq::<usize>::empty());
            None
        } else {
            assert(held@ =~= seq![held@[0]]);
            Some(held[0])
        }
    }

    fn into_positions(self) -> (held: Vec<usize>) {
        let mut held: Vec<usize> = Vec::new();
        match self {
            Some(p) => {
                held.push(p);
                assert(held@ =~= seq![p]);
            },
            None => {},
        }
        held
    }

    fn add_pos(&mut self, pos: usize) -> (r: Result<(), PositionError>) {
        if self.is_some() {
            return Err(PositionError::Occupied);
        }
        *self = Some(pos);
        proof {
            let none = Seq::<usize>::empty();
            lemma_rank_is_split(none, pos, 0);
            assert(none.insert(0, pos) =~= seq![pos]);
        }
        Ok(())
    }

    fn remove_pos(&mut self, pos: &usize) -> (emptied: bool) {
        match *self {
            Some(p) => {
                if p == *pos {
                    proof {
                        lemma_without_pos_found(seq![p], *pos, 0);
                        assert(seq![p].remove(0) =~= Seq::<usize>::empty());
                    }
                    *self = None;
                    true
                } else {
                    proof {
                        assert(!seq![p].contains(*pos));
                        lemma_without_pos_absent(seq![p], *pos);
                    }
                    false
                }
            },
            None => {
                proof {
                    lemma_without_pos_absent(Seq::<usize>::empty(), *pos);
                }
                true
            },
        }
    }
}

/// The index at which `pos` stands in `held`, or at which it would have to
/// be put: the number of positions below it.
pub fn search(held: &Vec<usize>, pos: usize) -> (at: usize)
    requires
        ascending(held@),
    ensures
        at == rank(held@, pos),
        at <= held.len(),
        forall|j: int| 0 <= j < at ==> held@[j] < pos,
        forall|j: int| at <= j < held.len() ==> held@[j] >= pos,
        held@.contains(pos) <==> (at < held.len() && held@[at as int] == pos),
{
    let mut low: usize = 0;
    let mut high: usize = held.len();
    while low < high
        invariant
            ascending(held@),
            low <= high <= held.len(),
            forall|j: int| 0 <= j < low ==> held@[j] < pos,
            forall|j: int| high <= j < held.len() ==> held@[j] >= pos,
        decreases high - low,
    {
        let mid: usize = low + (high - low) / 2;
        if held[mid] < pos {
            low = mid + 1;
        } else {
            high = mid;
        }
    }
    proof {
        lemma_rank_is_split(held@, pos, low as int);
    }
    low
}

impl KeyPositionAsSlice for Vec<usize> {
    open spec fn positions(&self) -> Seq<usize> {
        self@
    }

    fn as_slice(&self) -> (s: &[usize]) {
        self.as_slice()
    }
}

impl KeyPosition for Vec<usize> {
    open spec fn holds(held: Seq<usize>) -> bool {
        ascending(held)
    }

    open spec fn accepts(held: Seq<usize>, pos: usize) -> bool {
        true
    }

    fn from_pos(pos: usize) -> (r: Self) {
        let mut r: Vec<usize> = Vec::new();
        r.push(pos);
        assert(r@ =~= seq![pos]);
        r
    }

    fn from_positions(held: Vec<usize>) -> (r: Self) {
        held
    }

    fn into_positions(self) -> (held: Vec<usize>) {
        self
    }

    fn add_pos(&mut self, pos: usize) -> (r: Result<(), PositionError>) {
        let at: usize = search(self, pos);
        if at < self.len() && self[at] == pos {
            return Ok(());
        }
        self.insert(at, pos);
        proof {
            let before = old(self)@;
            let after = self@;
            assert forall|i: int, j: int| 0 <= i < j < after.len() implies after[i] < after[j] by {
                if j < at {
                    assert(after[i] == before[i] && after[j] == before[j]);
                } else if j == at {
                    assert(after[i] == before[i]);
                } else if i < at {
                    assert(after[i] == before[i] && after[j] == before[j - 1]);
                } else if i == at {
                    assert(after[j] == before[j - 1]);
                } else {
                    assert(after[i] == before[i - 1] && after[j] == before[j - 1]);
                }
            }
        }
        Ok(())
    }

    fn remove_pos(&mut self, pos: &usize) -> (emptied: bool) {
        let mut i: usize = 0;
        while i < self.len() && self[i] != *pos
            invariant
                i <= self.len(),
                forall|j: int| 0 <= j < i ==> self@[j] != *pos,
            decreases self.len() - i,
        {
            i = i + 1;
        }
        if i < self.len() {
            proof {
                lemma_without_pos_found(self@, *pos, i as int);
            }
            self.remove(i);
        } else {
            proof {
                lemma_without_pos_absent(self@, *pos);
            }
        }
        self.len() == 0
    }
}

/// A filter that every element passes keeps the sequence.
pub proof fn lemma_filter_keeps_all(s: Seq<usize>, pred: spec_fn(usize) -> bool)
    requires
        forall|i: int| 0 <= i < s.len() ==> pred(s[i]),
    ensures
        s.filter(pred) == s,
    decreases s.len(),
{
    reveal(Seq::filter);
    if s.len() > 0 {
        lemma_filter_keeps_all(s.drop_last(), pred);
        assert(s.drop_last().push(s.last()) =~= s);
    }
}

/// A filter that no element passes leaves nothing.
pub proof fn lemma_filter_drops_all(s: Seq<usize>, pred: spec_fn(usize) -> bool)
    requires
        forall|i: int| 0 <= i < s.len() ==> !pred(s[i]),
    ensures
        s.filter(pred) == Seq::<usize>::empty(),
    decreases s.len(),
{
    reveal(Seq::filter);
    if s.len() > 0 {
        lemma_filter_drops_all(s.drop_last(), pred);
    }
}

/// In an ascending sequence the rank of `pos` is the index at which the
/// positions stop being smaller than `pos`.
pub proof fn lemma_rank_is_split(s: Seq<usize>, pos: usize, i: int)
    requires
        0 <= i <= s.len(),
        forall|j: int| 0 <= j < i ==> s[j] < pos,
        forall|j: int| i <= j < s.len() ==> s[j] >= pos,
    ensures
        rank(s, pos) == i,
{
    let below = below(pos);
    let head = s.take(i);
    let tail = s.skip(i);
    assert(head + tail =~= s);
    Seq::filter_distributes_over_add(head, tail, below);
    lemma_filter_keeps_all(head, below);
    lemma_filter_drops_all(tail, below);
    assert(head + Seq::<usize>::empty() =~= head);
}

/// Taking the one occurrence of `pos` out of an ascending sequence.
pub proof fn lemma_without_pos_found(s: Seq<usize>, pos: usize, i: int)
    requires
        ascending(s),
        0 <= i < s.len(),
        s[i] == pos,
    ensures
        without_pos(s, pos) == s.remove(i),
{
    let other = other_than(pos);
    let head = s.take(i);
    let mid = seq![pos];
    let tail = s.skip(i + 1);
    assert(head + mid + tail =~= s);
    Seq::filter_distributes_over_add(head + mid, tail, other);
    Seq::filter_distributes_over_add(head, mid, other);
    lemma_filter_keeps_all(head, other);
    lemma_filter_drops_all(mid, other);
    lemma_filter_keeps_all(tail, other);
    assert(head + Seq::<usize>::empty() + tail =~= s.remove(i));
}

/// Taking out a position that is not held changes nothing.
pub proof fn lemma_without_pos_absent(s: Seq<usize>, pos: usize)
    requires
        !s.contains(pos),
    ensures
        without_pos(s, pos) == s,
{
    lemma_filter_keeps_all(s, other_than(pos));
}

/// A position that was added is held.
pub proof fn lemma_with_pos_has(s: Seq<usize>, pos: usize)
    ensures
        with_pos(s, pos).contains(pos),
{
    if !s.contains(pos) {
        s.lemma_filter_len(below(pos));
        assert(s.insert(rank(s, pos), pos)[rank(s, pos)] == pos);
    }
}

/// A position that was taken out is not held.
pub proof fn lemma_without_pos_lacks(s: Seq<usize>, pos: usize)
    ensures
        !without_pos(s, pos).contains(pos),
{
    let t = without_pos(s, pos);
    if t.contains(pos) {
        let i = choose|i: int| 0 <= i < t.len() && t[i] == pos;
        s.lemma_filter_pred(other_than(pos), i);
    }
}

/// What `with_pos` holds: what was held, and `pos`.
pub proof fn lemma_with_pos_holds(s: Seq<usize>, pos: usize)
    requires
        ascending(s),
    ensures
        forall|p: usize| with_pos(s, pos).contains(p) <==> s.contains(p) || p == pos,
        ascending(with_pos(s, pos)),
{
    if !s.contains(pos) {
        let at = rank(s, pos);
        let t = s.insert(at, pos);
        s.lemma_filter_len(below(pos));
        assert forall|j: int| 0 <= j < s.len() implies (j < at <==> s[j] < pos) by {
            lemma_rank_meets_order(s, pos, j);
        }
        assert forall|p: usize| t.contains(p) <==> s.contains(p) || p == pos by {
            if t.contains(p) {
                let i = choose|i: int| 0 <= i < t.len() && t[i] == p;
                if i < at {
                    assert(s[i] == p);
                } else if i > at {
                    assert(s[i - 1] == p);
                }
            }
            if s.contains(p) {
                let i = choose|i: int| 0 <= i < s.len() && s[i] == p;
                if i < at {
                    assert(t[i] == p);
                } else {
                    assert(t[i + 1] == p);
                }
            }
            if p == pos {
                assert(t[at] == p);
            }
        }
        assert forall|i: int, j: int| 0 <= i < j < t.len() implies t[i] < t[j] by {
            if j < at {
                assert(t[i] == s[i] && t[j] == s[j]);
            } else if j == at {
                assert(t[i] == s[i]);
            } else if i < at {
                assert(t[i] == s[i] && t[j] == s[j - 1]);
            } else if i == at {
                assert(t[j] == s[j - 1]);
            } else {
                assert(t[i] == s[i - 1] && t[j] == s[j - 1]);
            }
        }
    }
}

/// In an ascending sequence exactly the positions before the rank of `pos`
/// lie below `pos`.
pub proof fn lemma_rank_meets_order(s: Seq<usize>, pos: usize, j: int)
    requires
        ascending(s),
        0 <= j < s.len(),
    ensures
        j < rank(s, pos) <==> s[j] < pos,
{
    lemma_first_not_below(s, pos, 0);
    lemma_rank_is_split(s, pos, first_not_below(s, pos, 0));
}

/// The first index from `from` on at which `s` is not below `pos`.
pub open spec fn first_not_below(s: Seq<usize>, pos: usize, from: int) -> int
    decreases s.len() - from,
{
    if from < 0 || from >= s.len() || s[from] >= pos {
        from
    } else {
        first_not_below(s, pos, from + 1)
    }
}

/// Up to that index the positions lie below `pos`, and from it on they do
/// not.
pub proof fn lemma_first_not_below(s: Seq<usize>, pos: usize, from: int)
    requires
        ascending(s),
        0 <= from <= s.len(),
        forall|j: int| 0 <= j < from ==> s[j] < pos,
    ensures
        from <= first_not_below(s, pos, from) <= s.len(),
        forall|j: int| 0 <= j < first_not_below(s, pos, from) ==> s[j] < pos,
        forall|j: int| first_not_below(s, pos, from) <= j < s.len() ==> s[j] >= pos,
    decreases s.len() - from,
{
    if from < s.len() && s[from] < pos {
        lemma_first_not_below(s, pos, from + 1);
    } else if from < s.len() {
        assert forall|j: int| from <= j < s.len() implies s[j] >= pos by {
            if j > from {
                assert(s[from] < s[j]);
            }
        }
    }
}

/// What `without_pos` holds: what was held, but for `pos`.
pub proof fn lemma_without_pos_holds(s: Seq<usize>, pos: usize)
    requires
        ascending(s),
    ensures
        forall|p: usize| without_pos(s, pos).contains(p) <==> s.contains(p) && p != pos,
        ascending(without_pos(s, pos)),
{
    if s.contains(pos) {
        let i = choose|i: int| 0 <= i < s.len() && s[i] == pos;
        lemma_without_pos_found(s, pos, i);
        let t = s.remove(i);
        assert forall|p: usize| t.contains(p) <==> s.contains(p) && p != pos by {
            if t.contains(p) {
                let j = choose|j: int| 0 <= j < t.len() && t[j] == p;
                if j < i {
                    assert(s[j] == p);
                    assert(s[j] < s[i]);
                } else {
                    assert(s[j + 1] == p);
                    assert(s[i] < s[j + 1]);
                }
            }
            if s.contains(p) && p != pos {
                let j = choose|j: int| 0 <= j < s.len() && s[j] == p;
                if j < i {
                    assert(t[j] == p);
                } else {
                    assert(t[j - 1] == p);
                }
            }
        }
    } else {
        lemma_without_pos_absent(s, pos);
    }
}

} // verus!

//! From positions to the items that stand at them.
use vstd::prelude::*;

verus! {

/// A collection that hands out the item at a position.
pub trait Itemer {
    /// What the collection holds.
    type Output;

    /// The item at `pos`, where there is one.
    spec fn item_at(&self, pos: usize) -> Option<Self::Output>;

    /// The item at `pos`. There has to be one.
    fn item(&self, pos: &usize) -> (found: &Self::Output)
        requires
            self.item_at(*pos) is Some,
        ensures
            *found == self.item_at(*pos).unwrap(),
    ;

    /// The item at `pos`, where there is one.
    fn find(&self, pos: &usize) -> (found: Option<&Self::Output>)
        ensures
            found is Some <==> self.item_at(*pos) is Some,
            found is Some ==> *found.unwrap() == self.item_at(*pos).unwrap(),
    ;
}

/// The items of `items` at `positions`, in the order of `positions`. A
/// position at which there is no item is passed over.
pub open spec fn found_at<I: Itemer>(items: &I, positions: Seq<usize>) -> Seq<I::Output> {
    positions.filter_map(|pos: usize| items.item_at(pos))
}

/// What the references of `refs` point to.
pub open spec fn pointed_to<T>(refs: Seq<&T>) -> Seq<T> {
    refs.map_values(|r: &T| *r)
}

/// References to the items at `positions`, in the order of `positions`.
pub fn gather<'a, I: Itemer>(items: &'a I, positions: &[usize]) -> (found: Vec<&'a I::Output>)
    ensures
        pointed_to(found@) == found_at(items, positions@),
{
    let mut found: Vec<&'a I::Output> = Vec::new();
    let mut i: usize = 0;
    let ghost each = |pos: usize| items.item_at(pos);
    assert(pointed_to(found@) =~= positions@.take(0).filter_map(each));
    while i < positions.len()
        invariant
            i <= positions.len(),
            each == |pos: usize| items.item_at(pos),
            pointed_to(found@) == positions@.take(i as int).filter_map(each),
        decreases positions.len() - i,
    {
        proof {
            positions@.lemma_filter_map_take_succ(each, i as int);
        }
        let ghost before = found@;
        match items.find(&positions[i]) {
            Some(item) => {
                found.push(item);
                assert(pointed_to(found@) =~= pointed_to(before).push(*item));
            },
            None => {
                assert(pointed_to(before) + Seq::<I::Output>::empty() =~= pointed_to(before));
            },
        }
        i = i + 1;
    }
    assert(positions@.take(positions@.len() as int) =~= positions@);
    found
}

impl<T> Itemer for Vec<T> {
    type Output = T;

    open spec fn item_at(&self, pos: usize) -> Option<T> {
        if pos < self@.len() {
            Some(self@[pos as int])
        } else {
            None
        }
    }

    fn item(&self, pos: &usize) -> (found: &T) {
        &self[*pos]
    }

    fn find(&self, pos: &usize) -> (found: Option<&T>) {
        if *pos < self.len() {
            Some(&self[*pos])
        } else {
            None
        }
    }
}

/// The walk over the items at some positions, in the order of the positions.
pub struct Items<'a, I> {
    items: &'a I,
    positions: Vec<usize>,
    next: usize,
}

impl<'a, I: Itemer> Items<'a, I> {
    /// There is an item at each position, and the cursor lies within them.
    pub closed spec fn well_formed(&self) -> bool {
        &&& self.next <= self.positions@.len()
        &&& forall|i: int|
            0 <= i < self.positions@.len() ==> self.items.item_at(
                #[trigger] self.positions@[i],
            ) is Some
    }

    /// The items that are still to come, in their order.
    pub closed spec fn remaining(&self) -> Seq<I::Output> {
        self.positions@.skip(self.next as int).map_values(
            |pos: usize| self.items.item_at(pos).unwrap(),
        )
    }

    /// The walk over the items of `items` at `positions`.
    pub fn new(items: &'a I, positions: Vec<usize>) -> (walk: Self)
        requires
            forall|i: int| 0 <= i < positions@.len() ==> items.item_at(#[trigger] positions@[i]) is Some,
        ensures
            walk.well_formed(),
            walk.remaining() == positions@.map_values(|pos: usize| items.item_at(pos).unwrap()),
    {
        assert(positions@.skip(0) =~= positions@);
        Items { items, positions, next: 0 }
    }

    /// The next item, or none when all have been handed out.
    pub fn next(&mut self) -> (item: Option<&'a I::Output>)
        requires
            old(self).well_formed(),
        ensures
            final(self).well_formed(),
            match item {
                Some(found) => old(self).remaining().len() > 0 && *found == old(self).remaining()[0]
                    && final(self).remaining() == old(self).remaining().skip(1),
                None => old(self).remaining().len() == 0 && final(self).remaining().len() == 0,
            },
    {
        if self.next < self.positions.len() {
            let found: &'a I::Output = self.items.item(&self.positions[self.next]);
            self.next = self.next + 1;
            proof {
                assert(self.positions@.skip(self.next as int) =~= old(self).positions@.skip(
                    old(self).next as int,
                ).skip(1));
                assert(self.remaining() =~= old(self).remaining().skip(1));
            }
            Some(found)
        } else {
            None
        }
    }
}

} // verus!

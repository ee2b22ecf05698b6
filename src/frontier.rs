//! The frontier of the informed strategies: prioritised nodes, smallest
//! priority first, earliest insertion first among equal priorities.
use crate::traits::p_tuple::PTuple;
use vstd::prelude::*;

verus! {

/// Pairs waiting for expansion, in order of insertion.
pub struct Frontier<T> {
    items: Vec<PTuple<T>>,
}

impl<T> Frontier<T> {
    /// The pairs waiting, in order of insertion.
    pub closed spec fn items(&self) -> Seq<PTuple<T>> {
        self.items@
    }

    pub fn new() -> (r: Self)
        ensures
            r.items() == Seq::<PTuple<T>>::empty(),
    {
        Frontier { items: Vec::new() }
    }

    pub fn len(&self) -> (r: usize)
        ensures
            r == self.items().len(),
    {
        self.items.len()
    }

    pub fn push(&mut self, item: PTuple<T>)
        ensures
            final(self).items() == old(self).items().push(item),
    {
        self.items.push(item);
    }

    /// The position of the first pair with the smallest priority.
    pub fn min_index(&self) -> (r: usize)
        requires
            self.items().len() > 0,
        ensures
            r < self.items().len(),
            forall|j: int|
                0 <= j < self.items().len() ==> self.items()[r as int].priority
                    <= #[trigger] self.items()[j].priority,
            forall|j: int|
                0 <= j < r ==> self.items()[r as int].priority < #[trigger] self.items()[j].priority,
    {
        let mut best: usize = 0;
        let mut j: usize = 1;
        while j < self.items.len()
            invariant
                0 <= best < j <= self.items@.len(),
                forall|i: int|
                    0 <= i < j ==> self.items@[best as int].priority <= #[trigger] self.items@[i].priority,
                forall|i: int|
                    0 <= i < best ==> self.items@[best as int].priority < #[trigger] self.items@[i].priority,
            decreases self.items@.len() - j,
        {
            if self.items[j].priority < self.items[best].priority {
                best = j;
            }
            j += 1;
        }
        best
    }

    /// Takes out the pair at position `i`; the others keep their order.
    pub fn take(&mut self, i: usize) -> (r: PTuple<T>)
        requires
            i < old(self).items().len(),
        ensures
            r == old(self).items()[i as int],
            final(self).items() == old(self).items().remove(i as int),
    {
        self.items.remove(i)
    }
}

} // verus!

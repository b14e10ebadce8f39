//! A list that shrinks back when the search backtracks.

use vstd::prelude::*;

use crate::helpers::trail::{Trail, Trailed};

verus! {

/// A list whose length is trailed: elements that are added are removed on backtracking.
#[derive(Debug, PartialEq, Eq)]
pub struct TrailedList {
    /// The elements, and possibly some that were removed.
    pub items: Vec<usize>,
    /// The length of the list.
    pub len: Trailed,
}

impl TrailedList {
    /// Whether the length that the values give is one of the list.
    pub open spec fn wf_at(&self, values: Seq<usize>) -> bool {
        self.len.index < values.len() && values[self.len.index as int] <= self.items.len()
    }

    /// The elements under the given values of the trail.
    pub open spec fn at(&self, values: Seq<usize>) -> Seq<usize> {
        self.items@.take(values[self.len.index as int] as int)
    }

    /// Create an empty list.
    pub fn new(trail: &mut Trail) -> (r: TrailedList)
        requires
            old(trail).wf(),
        ensures
            final(trail).wf(),
            r.items@.len() == 0,
            r.len.index == old(trail)@.len(),
            final(trail)@ == old(trail)@.push(0),
            final(trail).depth() == old(trail).depth(),
            forall|l: int|
                0 <= l < old(trail).depth() ==> #[trigger] final(trail).saved(l) == old(
                    trail,
                ).saved(l).push(0),
    {
        let len: Trailed = trail.track(0);
        TrailedList { items: Vec::new(), len }
    }

    /// The number of elements.
    pub fn length(&self, trail: &Trail) -> (r: usize)
        requires
            self.wf_at(trail@),
        ensures
            r == self.at(trail@).len(),
            r == trail@[self.len.index as int],
    {
        trail.trailed(self.len)
    }

    /// The element at a position.
    pub fn get(&self, trail: &Trail, i: usize) -> (r: usize)
        requires
            self.wf_at(trail@),
            i < self.at(trail@).len(),
        ensures
            r == self.at(trail@)[i as int],
            r == self.items[i as int],
    {
        self.items[i]
    }

    /// Add an element. Lists of earlier levels, which are not longer, are not changed.
    pub fn push(&mut self, trail: &mut Trail, v: usize)
        requires
            old(trail).wf(),
            old(self).wf_at(old(trail)@),
            old(trail)@[old(self).len.index as int] < usize::MAX,
        ensures
            final(trail).wf(),
            final(self).len == old(self).len,
            final(trail)@ == old(trail)@.update(
                old(self).len.index as int,
                (old(trail)@[old(self).len.index as int] + 1) as usize,
            ),
            final(trail).same_history(old(trail)),
            final(self).wf_at(final(trail)@),
            final(self).at(final(trail)@) == old(self).at(old(trail)@).push(v),
            forall|values: Seq<usize>|
                old(self).wf_at(values) && values[old(self).len.index as int] <= old(trail)@[old(
                    self,
                ).len.index as int] ==> #[trigger] final(self).wf_at(values) && final(self).at(
                    values,
                ) == old(self).at(values),
    {
        let n: usize = trail.trailed(self.len);
        let ghost before = *self;
        self.items.truncate(n);
        self.items.push(v);
        trail.set_trailed(self.len, n + 1);
        proof {
            assert(self.at(trail@) =~= before.at(old(trail)@).push(v));
            assert forall|values: Seq<usize>|
                before.wf_at(values) && values[before.len.index as int] <= old(
                    trail,
                )@[before.len.index as int] implies #[trigger] self.wf_at(values) && self.at(values)
                == before.at(values) by {
                assert(self.at(values) =~= before.at(values));
            }
        }
    }
}

} // verus!

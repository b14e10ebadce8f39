//! A list whose elements are open until they are closed, and open again on backtracking.

use vstd::prelude::*;

use crate::helpers::trail::{Trail, Trailed};

verus! {

/// A list whose closed elements stand before the open ones. How many are closed is trailed,
/// while elements that are added stay.
#[derive(Debug, PartialEq, Eq)]
pub struct TrailedOpenList {
    /// The elements.
    pub items: Vec<usize>,
    /// The number of closed elements.
    pub closed: Trailed,
}

/// Two elements that changed places.
#[derive(Clone, Copy, Debug, PartialEq, Eq, Structural)]
pub struct Moved {
    /// The element that was closed.
    pub closed: usize,
    /// Its new position.
    pub closed_at: usize,
    /// The element that took its place.
    pub other: usize,
    /// The new position of that element.
    pub other_at: usize,
}

impl TrailedOpenList {
    /// Whether the number of closed elements that the values give is one of the list.
    pub open spec fn wf_at(&self, values: Seq<usize>) -> bool {
        self.closed.index < values.len() && values[self.closed.index as int] <= self.items.len()
    }

    /// The number of closed elements under the given values of the trail.
    pub open spec fn num_closed(&self, values: Seq<usize>) -> int {
        values[self.closed.index as int] as int
    }

    /// Create an empty list.
    pub fn new(trail: &mut Trail) -> (r: TrailedOpenList)
        requires
            old(trail).wf(),
        ensures
            final(trail).wf(),
            r.items@.len() == 0,
            r.closed.index == old(trail)@.len(),
            final(trail)@ == old(trail)@.push(0),
            final(trail).depth() == old(trail).depth(),
            forall|l: int|
                0 <= l < old(trail).depth() ==> #[trigger] final(trail).saved(l) == old(
                    trail,
                ).saved(l).push(0),
    {
        let closed: Trailed = trail.track(0);
        TrailedOpenList { items: Vec::new(), closed }
    }

    /// The number of elements.
    pub fn len(&self) -> (r: usize)
        ensures
            r == self.items.len(),
    {
        self.items.len()
    }

    /// The position of the first open element; those after it are open too.
    pub fn first_open(&self, trail: &Trail) -> (r: usize)
        requires
            self.wf_at(trail@),
        ensures
            r == self.num_closed(trail@),
            r <= self.items.len(),
    {
        trail.trailed(self.closed)
    }

    /// The number of open elements.
    pub fn num_open(&self, trail: &Trail) -> (r: usize)
        requires
            self.wf_at(trail@),
        ensures
            r == self.items.len() - self.num_closed(trail@),
    {
        self.items.len() - trail.trailed(self.closed)
    }

    /// Add an open element.
    pub fn push(&mut self, v: usize)
        ensures
            final(self).items@ == old(self).items@.push(v),
            final(self).closed == old(self).closed,
    {
        self.items.push(v);
    }

    /// Close the element at a position, unless it is closed. It changes places with the first
    /// open element.
    pub fn close(&mut self, trail: &mut Trail, i: usize) -> (r: Option<Moved>)
        requires
            old(trail).wf(),
            old(self).wf_at(old(trail)@),
            i < old(self).items.len(),
        ensures
            final(trail).wf(),
            final(self).closed == old(self).closed,
            final(trail).same_history(old(trail)),
            ({
                let n = old(self).num_closed(old(trail)@);
                match r {
                    None => {
                        &&& i < n
                        &&& *final(self) == *old(self)
                        &&& *final(trail) == *old(trail)
                    },
                    Some(m) => {
                        &&& i >= n
                        &&& m.closed == old(self).items[i as int]
                        &&& m.closed_at == n
                        &&& m.other == old(self).items[n]
                        &&& m.other_at == i
                        &&& final(self).items@ == old(self).items@.update(
                            i as int,
                            m.other,
                        ).update(n, m.closed)
                        &&& final(trail)@ == old(trail)@.update(
                            old(self).closed.index as int,
                            (n + 1) as usize,
                        )
                    },
                }
            }),
    {
        let n: usize = trail.trailed(self.closed);
        if i < n {
            return None;
        }
        let closed: usize = self.items[i];
        let other: usize = self.items[n];
        self.items.set(i, other);
        self.items.set(n, closed);
        trail.set_trailed(self.closed, n + 1);
        Some(Moved { closed, closed_at: n, other, other_at: i })
    }
}

} // verus!

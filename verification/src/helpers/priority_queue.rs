//! A priority queue of nodes whose priorities can be improved.

use vstd::prelude::*;

use crate::solver::view::IntVal;

verus! {

/// The priority of a node: a distance, and whether ties are resolved against the node.
pub type Priority = (IntVal, bool);

/// Whether `a` comes before `b`.
pub open spec fn spec_before(a: Priority, b: Priority) -> bool {
    a.0 < b.0 || (a.0 == b.0 && !a.1 && b.1)
}

/// Whether `a` comes before `b`.
#[verifier::when_used_as_spec(spec_before)]
pub fn before(a: Priority, b: Priority) -> (r: bool)
    ensures
        r == before(a, b),
{
    a.0 < b.0 || (a.0 == b.0 && !a.1 && b.1)
}

/// A queue of nodes, each with a priority. Smaller priorities come first.
#[derive(Debug, PartialEq, Eq)]
pub struct LazyPriorityQueue {
    /// The nodes and their priorities, in no order.
    entries: Vec<(usize, Priority)>,
}

impl View for LazyPriorityQueue {
    type V = Map<usize, Priority>;

    /// The priority of each node in the queue.
    closed spec fn view(&self) -> Map<usize, Priority> {
        Map::new(
            |n: usize| has_entry(self.entries@, n),
            |n: usize| self.entries@[entry_of(self.entries@, n)].1,
        )
    }
}

spec fn has_entry(entries: Seq<(usize, Priority)>, n: usize) -> bool {
    exists|k: int| 0 <= k < entries.len() && (#[trigger] entries[k]).0 == n
}

spec fn entry_of(entries: Seq<(usize, Priority)>, n: usize) -> int {
    choose|k: int| 0 <= k < entries.len() && (#[trigger] entries[k]).0 == n
}

impl LazyPriorityQueue {
    /// No node occurs twice.
    pub closed spec fn wf(&self) -> bool {
        forall|k: int, l: int|
            0 <= k < l < self.entries@.len() ==> (#[trigger] self.entries@[k]).0 != (
            #[trigger] self.entries@[l]).0
    }

    proof fn lemma_entry(&self, k: int)
        requires
            self.wf(),
            0 <= k < self.entries@.len(),
        ensures
            self@.dom().contains(self.entries@[k].0),
            self@[self.entries@[k].0] == self.entries@[k].1,
    {
        let n = self.entries@[k].0;
        let l = entry_of(self.entries@, n);
        assert(has_entry(self.entries@, n));
        assert(0 <= l < self.entries@.len() && self.entries@[l].0 == n);
        if l < k {
            assert(self.entries@[l].0 != self.entries@[k].0);
        } else if k < l {
            assert(self.entries@[k].0 != self.entries@[l].0);
        }
    }

    /// Create an empty queue.
    pub fn new() -> (r: LazyPriorityQueue)
        ensures
            r.wf(),
            r@ == Map::<usize, Priority>::empty(),
    {
        let r: LazyPriorityQueue = LazyPriorityQueue { entries: Vec::new() };
        assert(r@ =~= Map::<usize, Priority>::empty()) by {
            assert forall|n: usize| !#[trigger] r@.dom().contains(n) by {
                assert(!has_entry(r.entries@, n));
            }
        }
        r
    }

    fn find(&self, n: usize) -> (r: Option<usize>)
        requires
            self.wf(),
        ensures
            match r {
                Some(k) => k < self.entries@.len() && self.entries@[k as int].0 == n
                    && self@.dom().contains(n) && self@[n] == self.entries@[k as int].1,
                None => !self@.dom().contains(n) && forall|k: int|
                    0 <= k < self.entries@.len() ==> (#[trigger] self.entries@[k]).0 != n,
            },
    {
        let mut i: usize = 0;
        while i < self.entries.len()
            invariant
                self.wf(),
                i <= self.entries@.len(),
                forall|k: int| 0 <= k < i ==> (#[trigger] self.entries@[k]).0 != n,
            decreases self.entries@.len() - i,
        {
            if self.entries[i].0 == n {
                proof {
                    self.lemma_entry(i as int);
                }
                return Some(i);
            }
            i = i + 1;
        }
        assert(!has_entry(self.entries@, n));
        None
    }

    /// Whether no node is in the queue.
    pub fn is_empty(&self) -> (r: bool)
        requires
            self.wf(),
        ensures
            r == (forall|n: usize| !#[trigger] self@.dom().contains(n)),
    {
        if self.entries.len() == 0 {
            assert forall|n: usize| !#[trigger] self@.dom().contains(n) by {
                assert(!has_entry(self.entries@, n));
            }
            true
        } else {
            proof {
                self.lemma_entry(0);
            }
            false
        }
    }

    /// The priority of a node that is in the queue.
    pub fn get_priority(&self, n: usize) -> (r: Option<Priority>)
        requires
            self.wf(),
        ensures
            match r {
                Some(p) => self@.dom().contains(n) && self@[n] == p,
                None => !self@.dom().contains(n),
            },
    {
        match self.find(n) {
            Some(k) => Some(self.entries[k].1),
            None => None,
        }
    }

    /// Give a node a priority, and return the one that it had.
    pub fn push(&mut self, n: usize, p: Priority) -> (r: Option<Priority>)
        requires
            old(self).wf(),
        ensures
            final(self).wf(),
            final(self)@ == old(self)@.insert(n, p),
            match r {
                Some(q) => old(self)@.dom().contains(n) && old(self)@[n] == q,
                None => !old(self)@.dom().contains(n),
            },
    {
        let ghost before = *self;
        match self.find(n) {
            Some(k) => {
                let q: Priority = self.entries[k].1;
                self.entries.set(k, (n, p));
                proof {
                    assert forall|m: usize| #[trigger]
                        self@.dom().contains(m) == before@.insert(n, p).dom().contains(m) by {
                        if has_entry(before.entries@, m) {
                            let l = entry_of(before.entries@, m);
                            assert(self.entries@[l].0 == m);
                        }
                        if has_entry(self.entries@, m) {
                            let l = entry_of(self.entries@, m);
                            assert(before.entries@[l].0 == m);
                        }
                    }
                    assert forall|m: usize| #[trigger] self@.dom().contains(m) implies self@[m]
                        == before@.insert(n, p)[m] by {
                        let l = entry_of(self.entries@, m);
                        assert(has_entry(self.entries@, m));
                        self.lemma_entry(l);
                        before.lemma_entry(l);
                    }
                    assert(self@ =~= before@.insert(n, p));
                }
                Some(q)
            },
            None => {
                self.entries.push((n, p));
                proof {
                    assert forall|m: usize| #[trigger]
                        self@.dom().contains(m) == before@.insert(n, p).dom().contains(m) by {
                        if has_entry(before.entries@, m) {
                            let l = entry_of(before.entries@, m);
                            assert(self.entries@[l].0 == m);
                        }
                        if has_entry(self.entries@, m) {
                            let l = entry_of(self.entries@, m);
                            if l < before.entries@.len() {
                                assert(before.entries@[l].0 == m);
                            }
                        }
                        if m == n {
                            assert(self.entries@[self.entries@.len() - 1].0 == m);
                        }
                    }
                    assert forall|m: usize| #[trigger] self@.dom().contains(m) implies self@[m]
                        == before@.insert(n, p)[m] by {
                        let l = entry_of(self.entries@, m);
                        assert(has_entry(self.entries@, m));
                        self.lemma_entry(l);
                        if l < before.entries@.len() {
                            before.lemma_entry(l);
                        }
                    }
                    assert(self@ =~= before@.insert(n, p));
                }
                None
            },
        }
    }

    /// Give a node a priority, unless it has one that comes at least as early. Returns the
    /// priority that was replaced, or the given one where nothing was.
    pub fn push_increase(&mut self, n: usize, p: Priority) -> (r: Option<Priority>)
        requires
            old(self).wf(),
        ensures
            final(self).wf(),
            if !old(self)@.dom().contains(n) {
                r is None && final(self)@ == old(self)@.insert(n, p)
            } else if before(p, old(self)@[n]) {
                r == Some(old(self)@[n]) && final(self)@ == old(self)@.insert(n, p)
            } else {
                r == Some(p) && final(self)@ == old(self)@
            },
    {
        match self.get_priority(n) {
            Some(q) => if before(p, q) {
                self.push(n, p)
            } else {
                Some(p)
            },
            None => self.push(n, p),
        }
    }

    /// Remove the node whose priority comes first.
    pub fn pop(&mut self) -> (r: Option<(usize, Priority)>)
        requires
            old(self).wf(),
        ensures
            final(self).wf(),
            match r {
                Some((n, p)) => {
                    &&& old(self)@.dom().contains(n)
                    &&& old(self)@[n] == p
                    &&& final(self)@ == old(self)@.remove(n)
                    &&& forall|m: usize| #[trigger]
                        old(self)@.dom().contains(m) ==> !before(old(self)@[m], p)
                },
                None => final(self)@ == old(self)@ && forall|n: usize| !#[trigger] old(
                    self,
                )@.dom().contains(n),
            },
    {
        if self.is_empty() {
            return None;
        }
        let mut best: usize = 0;
        let mut i: usize = 1;
        proof {
            if self.entries@.len() == 0 {
                assert forall|n: usize| !#[trigger] self@.dom().contains(n) by {
                    assert(!has_entry(self.entries@, n));
                }
            }
        }
        while i < self.entries.len()
            invariant
                *self == *old(self),
                best < i <= self.entries@.len(),
                forall|k: int|
                    0 <= k < i ==> !before(
                        (#[trigger] self.entries@[k]).1,
                        self.entries@[best as int].1,
                    ),
            decreases self.entries@.len() - i,
        {
            if before(self.entries[i].1, self.entries[best].1) {
                best = i;
            }
            i = i + 1;
        }
        let ghost was = *self;
        let r: (usize, Priority) = self.entries.swap_remove(best);
        proof {
            let n = r.0;
            let top = was.entries@.len() - 1;
            was.lemma_entry(best as int);
            assert forall|m: usize| #[trigger] was@.dom().contains(m) implies !before(
                was@[m],
                r.1,
            ) by {
                let l = entry_of(was.entries@, m);
                assert(has_entry(was.entries@, m));
                was.lemma_entry(l);
            }
            assert forall|k: int| 0 <= k < self.entries@.len() implies self.entries@[k]
                == was.entries@[if k == best { top } else { k }] by {}
            assert(self.wf());
            assert forall|m: usize| #[trigger]
                self@.dom().contains(m) == was@.remove(n).dom().contains(m) by {
                if has_entry(was.entries@, m) && m != n {
                    let l = entry_of(was.entries@, m);
                    assert(l != best);
                    let k = if l == top {
                        best as int
                    } else {
                        l
                    };
                    assert(self.entries@[k].0 == m);
                }
                if has_entry(self.entries@, m) {
                    let k = entry_of(self.entries@, m);
                    let l = if k == best {
                        top
                    } else {
                        k
                    };
                    assert(was.entries@[l].0 == m);
                    if l < best {
                        assert(was.entries@[l].0 != was.entries@[best as int].0);
                    } else {
                        assert(was.entries@[best as int].0 != was.entries@[l].0);
                    }
                }
            }
            assert forall|m: usize| #[trigger] self@.dom().contains(m) implies self@[m]
                == was@.remove(n)[m] by {
                assert(has_entry(self.entries@, m));
                let k = entry_of(self.entries@, m);
                self.lemma_entry(k);
                was.lemma_entry(
                    if k == best {
                        top
                    } else {
                        k
                    },
                );
                assert(was@.remove(n).dom().contains(m));
            }
            assert(self@ =~= was@.remove(n));
        }
        Some(r)
    }
}

} // verus!

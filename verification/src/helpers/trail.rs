//! Values that are restored when the search backtracks.

use vstd::prelude::*;

verus! {

/// A value on the [`Trail`].
#[derive(Clone, Copy, Debug, PartialEq, Eq, Hash, Structural)]
pub struct Trailed {
    /// Position of the value on the trail.
    pub index: usize,
}

/// Values that change during search, with what is needed to restore them.
#[derive(Debug, PartialEq, Eq)]
pub struct Trail {
    /// The current values.
    values: Vec<usize>,
    /// Positions that were changed, each with the value before the change.
    log: Vec<(usize, usize)>,
    /// The length of the log at the start of each decision level.
    levels: Vec<usize>,
}

/// The values after the changes of `log` were undone back to its first `from` entries.
pub open spec fn undone(values: Seq<usize>, log: Seq<(usize, usize)>, from: int) -> Seq<usize>
    decreases log.len(),
{
    if log.len() <= from || log.len() == 0 {
        values
    } else {
        undone(values.update(log.last().0 as int, log.last().1), log.drop_last(), from)
    }
}

proof fn lemma_undone_len(values: Seq<usize>, log: Seq<(usize, usize)>, from: int)
    requires
        forall|k: int| 0 <= k < log.len() ==> (#[trigger] log[k]).0 < values.len(),
    ensures
        undone(values, log, from).len() == values.len(),
    decreases log.len(),
{
    if log.len() > from && log.len() > 0 {
        assert(log[log.len() - 1].0 < values.len());
        lemma_undone_len(
            values.update(log.last().0 as int, log.last().1),
            log.drop_last(),
            from,
        );
    }
}

proof fn lemma_undone_push(values: Seq<usize>, log: Seq<(usize, usize)>, from: int, v: usize)
    requires
        forall|k: int| 0 <= k < log.len() ==> (#[trigger] log[k]).0 < values.len(),
    ensures
        undone(values.push(v), log, from) == undone(values, log, from).push(v),
    decreases log.len(),
{
    if log.len() > from && log.len() > 0 {
        let i = log.last().0 as int;
        assert(log[log.len() - 1].0 < values.len());
        assert(values.push(v).update(i, log.last().1) == values.update(i, log.last().1).push(v));
        lemma_undone_push(values.update(i, log.last().1), log.drop_last(), from, v);
    }
}

/// Undoing in two stages.
proof fn lemma_undone_twice(values: Seq<usize>, log: Seq<(usize, usize)>, from: int, lower: int)
    requires
        0 <= lower <= from <= log.len(),
    ensures
        undone(values, log, lower) == undone(undone(values, log, from), log.take(from), lower),
    decreases log.len(),
{
    if log.len() > from {
        lemma_undone_twice(
            values.update(log.last().0 as int, log.last().1),
            log.drop_last(),
            from,
            lower,
        );
        assert(log.drop_last().take(from) == log.take(from));
    } else {
        assert(log.take(from) == log);
    }
}

impl View for Trail {
    type V = Seq<usize>;

    /// The current values.
    closed spec fn view(&self) -> Seq<usize> {
        self.values@
    }
}

impl Trail {
    /// Every change concerns a value of the trail, and the levels start one after another.
    pub closed spec fn wf(&self) -> bool {
        &&& forall|k: int|
            0 <= k < self.log@.len() ==> (#[trigger] self.log@[k]).0 < self.values@.len()
        &&& forall|l: int|
            0 <= l < self.levels@.len() ==> #[trigger] self.levels@[l] <= self.log@.len()
        &&& forall|k: int, l: int|
            0 <= k <= l < self.levels@.len() ==> #[trigger] self.levels@[k]
                <= #[trigger] self.levels@[l]
    }

    /// The number of decision levels above the root.
    pub closed spec fn depth(&self) -> nat {
        self.levels@.len()
    }

    /// The values at the start of the decision level after `level`, among them the initial
    /// values of those that were added since.
    pub closed spec fn saved(&self, level: int) -> Seq<usize> {
        undone(self.values@, self.log@, self.levels@[level] as int)
    }

    /// Whether the trail restores what `other` restores, for the values of `other`.
    pub open spec fn same_history(&self, other: &Trail) -> bool {
        &&& self.depth() == other.depth()
        &&& forall|l: int| 0 <= l < self.depth() ==> #[trigger] self.saved(l) == other.saved(l)
    }

    /// Create an empty trail.
    pub fn new() -> (r: Trail)
        ensures
            r.wf(),
            r@ == Seq::<usize>::empty(),
            r.depth() == 0,
    {
        Trail { values: Vec::new(), log: Vec::new(), levels: Vec::new() }
    }

    /// Add a value to the trail.
    pub fn track(&mut self, v: usize) -> (r: Trailed)
        requires
            old(self).wf(),
        ensures
            final(self).wf(),
            r.index == old(self)@.len(),
            final(self)@ == old(self)@.push(v),
            final(self).depth() == old(self).depth(),
            forall|l: int|
                0 <= l < old(self).depth() ==> #[trigger] final(self).saved(l) == old(self).saved(
                    l,
                ).push(v),
    {
        let index: usize = self.values.len();
        proof {
            assert forall|l: int| 0 <= l < self.depth() implies undone(
                self.values@.push(v),
                self.log@,
                #[trigger] self.levels@[l] as int,
            ) == self.saved(l).push(v) by {
                lemma_undone_push(self.values@, self.log@, self.levels@[l] as int, v);
            }
        }
        self.values.push(v);
        Trailed { index }
    }

    /// The current value.
    pub fn trailed(&self, i: Trailed) -> (r: usize)
        requires
            i.index < self@.len(),
        ensures
            r == self@[i.index as int],
    {
        self.values[i.index]
    }

    /// Change a value, and return the value before.
    pub fn set_trailed(&mut self, i: Trailed, v: usize) -> (r: usize)
        requires
            old(self).wf(),
            i.index < old(self)@.len(),
        ensures
            final(self).wf(),
            r == old(self)@[i.index as int],
            final(self)@ == old(self)@.update(i.index as int, v),
            final(self).same_history(old(self)),
    {
        let before: usize = self.values[i.index];
        let ghost log0 = self.log@;
        let ghost values0 = self.values@;
        self.log.push((i.index, before));
        self.values.set(i.index, v);
        proof {
            assert(self.log@.drop_last() == log0);
            assert(self.values@.update(i.index as int, before) == values0);
            assert forall|l: int| 0 <= l < self.depth() implies #[trigger] self.saved(l) == old(
                self,
            ).saved(l) by {
                assert(self.levels@[l] <= log0.len());
            }
        }
        before
    }

    /// Start a new decision level.
    pub fn notify_new_decision_level(&mut self)
        requires
            old(self).wf(),
        ensures
            final(self).wf(),
            final(self)@ == old(self)@,
            final(self).depth() == old(self).depth() + 1,
            final(self).saved(old(self).depth() as int) == old(self)@,
            forall|l: int|
                0 <= l < old(self).depth() ==> #[trigger] final(self).saved(l) == old(self).saved(
                    l,
                ),
    {
        self.levels.push(self.log.len());
    }

    /// Return to a decision level: every value is restored to what it was when the next level
    /// was started.
    pub fn notify_backtrack(&mut self, level: usize)
        requires
            old(self).wf(),
            level < old(self).depth(),
        ensures
            final(self).wf(),
            final(self)@ == old(self).saved(level as int),
            final(self)@.len() == old(self)@.len(),
            final(self).depth() == level,
            forall|l: int| 0 <= l < level ==> #[trigger] final(self).saved(l) == old(self).saved(l),
    {
        let from: usize = self.levels[level];
        let ghost log0 = self.log@;
        let ghost values0 = self.values@;
        proof {
            lemma_undone_len(values0, log0, from as int);
            assert(log0.take(log0.len() as int) == log0);
        }
        while self.log.len() > from
            invariant
                self.levels@ == old(self).levels@,
                from <= self.log@.len() <= log0.len(),
                self.log@ == log0.take(self.log@.len() as int),
                self.values@.len() == values0.len(),
                forall|k: int| 0 <= k < log0.len() ==> (#[trigger] log0[k]).0 < values0.len(),
                undone(self.values@, self.log@, from as int) == undone(
                    values0,
                    log0,
                    from as int,
                ),
            decreases self.log@.len(),
        {
            let ghost top = self.log@;
            match self.log.pop() {
                Some((i, v)) => {
                    proof {
                        assert(log0[top.len() - 1] == top.last());
                        assert(self.log@ == log0.take(self.log@.len() as int));
                        assert(self.log@ == top.drop_last());
                    }
                    self.values.set(i, v);
                },
                None => {},
            }
        }
        self.levels.truncate(level);
        proof {
            assert forall|l: int| 0 <= l < level implies #[trigger] self.saved(l) == old(
                self,
            ).saved(l) by {
                assert(self.levels@[l] == old(self).levels@[l]);
                assert(old(self).levels@[l] <= old(self).levels@[level as int]);
                lemma_undone_twice(values0, log0, from as int, self.levels@[l] as int);
            }
        }
    }
}

} // verus!

//! Domains of integer decisions.

use vstd::prelude::*;

use crate::solver::view::{IntLitMeaning, IntVal, INT_LIMIT};

verus! {

/// The domain of an integer decision: an interval from which some values were removed.
#[derive(Debug, PartialEq, Eq, Hash)]
pub struct IntDomain {
    /// The smallest value.
    pub lb: IntVal,
    /// The largest value.
    pub ub: IntVal,
    /// Values that were removed.
    pub holes: Vec<IntVal>,
}

impl IntDomain {
    /// Whether `x` is a value of the domain.
    pub open spec fn has(self, x: int) -> bool {
        self.lb <= x <= self.ub && !self.removed(x)
    }

    /// Whether `x` was removed.
    pub open spec fn removed(self, x: int) -> bool {
        exists|k: int| 0 <= k < self.holes.len() && #[trigger] self.holes[k] == x
    }

    /// A domain is not empty, and its bounds are values of it.
    pub open spec fn wf(self) -> bool {
        &&& -INT_LIMIT <= self.lb
        &&& self.ub <= INT_LIMIT
        &&& self.has(self.lb as int)
        &&& self.has(self.ub as int)
    }

    /// Create the domain of all values from `lb` up to `ub`.
    pub fn new(lb: IntVal, ub: IntVal) -> (r: IntDomain)
        requires
            -INT_LIMIT <= lb <= ub <= INT_LIMIT,
        ensures
            r.wf(),
            r.lb == lb,
            r.ub == ub,
            forall|x: int| #[trigger] r.has(x) == (lb <= x <= ub),
    {
        IntDomain { lb, ub, holes: Vec::new() }
    }

    /// A copy of the domain.
    pub fn copy(&self) -> (r: IntDomain)
        ensures
            r.lb == self.lb,
            r.ub == self.ub,
            r.holes@ == self.holes@,
    {
        let mut holes: Vec<IntVal> = Vec::new();
        let mut i: usize = 0;
        while i < self.holes.len()
            invariant
                i <= self.holes.len(),
                holes@ == self.holes@.take(i as int),
            decreases self.holes.len() - i,
        {
            holes.push(self.holes[i]);
            i = i + 1;
            assert(self.holes@.take(i as int) == self.holes@.take(i - 1).push(self.holes[i - 1]));
        }
        IntDomain { lb: self.lb, ub: self.ub, holes }
    }

    fn is_removed(&self, x: IntVal) -> (r: bool)
        ensures
            r == self.removed(x as int),
    {
        let mut i: usize = 0;
        while i < self.holes.len()
            invariant
                i <= self.holes.len(),
                forall|k: int| 0 <= k < i ==> #[trigger] self.holes[k] != x,
            decreases self.holes.len() - i,
        {
            if self.holes[i] == x {
                return true;
            }
            i = i + 1;
        }
        false
    }

    /// Whether `x` is a value of the domain.
    pub fn in_domain(&self, x: IntVal) -> (r: bool)
        ensures
            r == self.has(x as int),
    {
        self.lb <= x && x <= self.ub && !self.is_removed(x)
    }

    /// Whether `x` is the only value of the domain.
    pub fn val(&self) -> (r: Option<IntVal>)
        requires
            self.wf(),
        ensures
            match r {
                Some(v) => forall|x: int| #[trigger] self.has(x) == (x == v),
                None => self.lb < self.ub,
            },
    {
        if self.lb == self.ub {
            Some(self.lb)
        } else {
            None
        }
    }

    /// Remove the values less than `v`.
    pub fn set_lower(&mut self, v: IntVal)
        requires
            old(self).wf(),
            old(self).lb <= v <= old(self).ub,
        ensures
            final(self).wf(),
            final(self).ub == old(self).ub,
            final(self).holes == old(self).holes,
            final(self).lb >= v,
            forall|x: int| #[trigger] final(self).has(x) == (old(self).has(x) && x >= v),
    {
        let ghost before = *self;
        let mut lb: IntVal = v;
        while self.is_removed(lb)
            invariant
                *self == before,
                before.wf(),
                v <= lb <= before.ub,
                forall|x: int| v <= x < lb ==> #[trigger] before.removed(x),
            decreases before.ub - lb,
        {
            lb = lb + 1;
        }
        self.lb = lb;
        assert(self.holes == before.holes);
        assert(forall|x: int| #[trigger] self.removed(x) == before.removed(x));
    }

    /// Remove the values greater than `v`.
    pub fn set_upper(&mut self, v: IntVal)
        requires
            old(self).wf(),
            old(self).lb <= v <= old(self).ub,
        ensures
            final(self).wf(),
            final(self).lb == old(self).lb,
            final(self).holes == old(self).holes,
            final(self).ub <= v,
            forall|x: int| #[trigger] final(self).has(x) == (old(self).has(x) && x <= v),
    {
        let ghost before = *self;
        let mut ub: IntVal = v;
        while self.is_removed(ub)
            invariant
                *self == before,
                before.wf(),
                before.lb <= ub <= v,
                v <= INT_LIMIT,
                forall|x: int| ub < x <= v ==> #[trigger] before.removed(x),
            decreases ub - before.lb,
        {
            ub = ub - 1;
        }
        self.ub = ub;
        assert(self.holes == before.holes);
        assert(forall|x: int| #[trigger] self.removed(x) == before.removed(x));
    }

    /// Remove the value `v`, which is not the only one.
    pub fn remove(&mut self, v: IntVal)
        requires
            old(self).wf(),
            old(self).has(v as int),
            old(self).lb < old(self).ub,
        ensures
            final(self).wf(),
            forall|x: int| #[trigger] final(self).has(x) == (old(self).has(x) && x != v),
    {
        if v == self.lb {
            self.set_lower(v + 1);
        } else if v == self.ub {
            self.set_upper(v - 1);
        } else {
            let ghost before = *self;
            self.holes.push(v);
            assert forall|x: int| #[trigger] self.removed(x) == (before.removed(x) || x == v) by {
                if before.removed(x) {
                    let k = choose|k: int|
                        0 <= k < before.holes.len() && #[trigger] before.holes[k] == x;
                    assert(self.holes[k] == x);
                }
                if x == v {
                    assert(self.holes[self.holes.len() - 1] == x);
                }
                if self.removed(x) {
                    let k = choose|k: int|
                        0 <= k < self.holes.len() && #[trigger] self.holes[k] == x;
                    if k < before.holes.len() {
                        assert(before.holes[k] == x);
                    }
                }
            }
        }
    }

    /// The truth of a literal on every value of the domain, if it is the same on all.
    pub open spec fn decides(self, m: IntLitMeaning, b: bool) -> bool {
        forall|x: int| #[trigger] self.has(x) ==> m.holds(x) == b
    }

    /// The value of a literal that the domain decides.
    pub fn lit_val(&self, m: IntLitMeaning) -> (r: Option<bool>)
        requires
            self.wf(),
        ensures
            match r {
                Some(b) => self.decides(m, b),
                None => !self.decides(m, true) && !self.decides(m, false),
            },
    {
        proof {
            assert(self.has(self.lb as int));
            assert(self.has(self.ub as int));
        }
        match m {
            IntLitMeaning::Eq(v) => if !self.in_domain(v) {
                Some(false)
            } else if self.lb == self.ub {
                Some(true)
            } else {
                None
            },
            IntLitMeaning::NotEq(v) => if !self.in_domain(v) {
                Some(true)
            } else if self.lb == self.ub {
                Some(false)
            } else {
                None
            },
            IntLitMeaning::GreaterEq(v) => if v <= self.lb {
                Some(true)
            } else if v > self.ub {
                Some(false)
            } else {
                None
            },
            IntLitMeaning::Less(v) => if v > self.ub {
                Some(true)
            } else if v <= self.lb {
                Some(false)
            } else {
                None
            },
        }
    }
}

} // verus!
